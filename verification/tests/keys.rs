use hulunote_app::editor::autocomplete::AcKey;
use hulunote_app::editor::edit::EditorAtom;
use hulunote_app::editor::keys::{delete_plan, key_action, DeletePlan, KeyAction};

#[test]
fn arrows_up_and_down_go_by_their_modifiers() {
    let up = |shift, alt, command| key_action("ArrowUp", shift, alt, command, false);
    assert_eq!(up(false, false, false), KeyAction::StepLine { up: true });
    assert_eq!(up(false, true, false), KeyAction::Move { up: true });
    assert_eq!(up(true, true, true), KeyAction::Move { up: true });
    assert_eq!(up(true, false, true), KeyAction::Jump { up: true });
    assert_eq!(up(true, false, false), KeyAction::Pass);
    assert_eq!(
        key_action("ArrowDown", false, false, true, false),
        KeyAction::Jump { up: false }
    );
}

#[test]
fn the_other_keys_of_a_row() {
    let plain = |key| key_action(key, false, false, false, false);
    let shifted = |key| key_action(key, true, false, false, false);
    assert_eq!(plain("ArrowLeft"), KeyAction::StepAside { left: true });
    assert_eq!(shifted("ArrowRight"), KeyAction::StepAside { left: false });
    assert_eq!(plain("Tab"), KeyAction::Level { down: true });
    assert_eq!(shifted("Tab"), KeyAction::Level { down: false });
    assert_eq!(plain("Backspace"), KeyAction::Delete { back: true });
    assert_eq!(plain("Delete"), KeyAction::Delete { back: false });
    assert_eq!(plain("Enter"), KeyAction::Enter { shift: false });
    assert_eq!(shifted("Enter"), KeyAction::Enter { shift: true });
    assert_eq!(plain("Escape"), KeyAction::Pass);
    assert_eq!(plain("a"), KeyAction::Pass);
}

#[test]
fn an_open_menu_comes_first() {
    let menu = |key, shift, alt| key_action(key, shift, alt, false, true);
    assert_eq!(menu("ArrowDown", false, false), KeyAction::Menu(AcKey::Down));
    assert_eq!(menu("ArrowUp", false, true), KeyAction::Menu(AcKey::Up));
    assert_eq!(menu("Escape", false, false), KeyAction::Menu(AcKey::Escape));
    assert_eq!(menu("Enter", false, false), KeyAction::Menu(AcKey::Choose));
    assert_eq!(menu("Tab", true, false), KeyAction::Menu(AcKey::Choose));
    assert_eq!(menu("Enter", true, false), KeyAction::Enter { shift: true });
    assert_eq!(menu("Backspace", false, false), KeyAction::Delete { back: true });
}

#[test]
fn a_delete_key_goes_by_what_the_row_holds() {
    let text = [EditorAtom::Text("a".to_string()), EditorAtom::SoftBreak];
    let blank = [EditorAtom::Text(" ".to_string()), EditorAtom::PlaceholderBreak];
    let breaks = [EditorAtom::SoftBreak, EditorAtom::SoftBreak];
    assert_eq!(delete_plan(&text, "a\n", 0, 0), DeletePlan::DeleteText);
    assert_eq!(delete_plan(&breaks, "\n\n", 1, 1), DeletePlan::DropBreak);
    assert_eq!(delete_plan(&breaks, "\n\n", 0, 2), DeletePlan::DeleteText);
    assert_eq!(delete_plan(&blank, " ", 0, 1), DeletePlan::DeleteRow);
    assert_eq!(delete_plan(&[], "", 0, 0), DeletePlan::DeleteRow);
}
