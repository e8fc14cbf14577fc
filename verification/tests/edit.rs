use hulunote_app::editor::edit::{
    apply_editor_op, decide_enter_action, line_info_at, normalize_editor_text_for_persist,
    reduce_editor_state, serialize_editor_atoms_for_persist, serialize_editor_atoms_for_view,
    EditorAtom, EditorIntent, EditorOp, EditorState, EnterAction, EnterContext,
};

#[test]
fn serialize_editor_atoms_keeps_intentional_empty_line() {
    let atoms = vec![
        EditorAtom::Text("a".into()),
        EditorAtom::SoftBreak,
        EditorAtom::SoftBreak,
        EditorAtom::Text("b".into()),
    ];
    assert_eq!(serialize_editor_atoms_for_persist(&atoms), "a\n\nb");
}

#[test]
fn serialize_editor_atoms_drops_trailing_placeholder_after_single_line() {
    let atoms = vec![EditorAtom::Text("a".into()), EditorAtom::PlaceholderBreak];
    assert_eq!(serialize_editor_atoms_for_persist(&atoms), "a");
}

#[test]
fn serialize_editor_atoms_drops_placeholder_after_user_deleted_softbreak() {
    let atoms = vec![
        EditorAtom::Text("a".into()),
        EditorAtom::SoftBreak,
        EditorAtom::PlaceholderBreak,
    ];
    assert_eq!(serialize_editor_atoms_for_persist(&atoms), "a\n");
}

#[test]
fn serialize_editor_atoms_drops_terminal_softbreak_without_following_text() {
    let atoms = vec![
        EditorAtom::Text("single-line".into()),
        EditorAtom::SoftBreak,
    ];
    assert_eq!(serialize_editor_atoms_for_persist(&atoms), "single-line\n");
}

#[test]
fn serialize_editor_atoms_keeps_softbreak_when_followed_by_text() {
    let atoms = vec![
        EditorAtom::Text("line1".into()),
        EditorAtom::SoftBreak,
        EditorAtom::Text("line2".into()),
    ];
    assert_eq!(serialize_editor_atoms_for_persist(&atoms), "line1\nline2");
}

#[test]
fn serialize_editor_atoms_for_view_keeps_terminal_softbreak() {
    let atoms = vec![EditorAtom::Text("a".into()), EditorAtom::SoftBreak];
    assert_eq!(serialize_editor_atoms_for_view(&atoms), "a\n");
}

#[test]
fn apply_editor_op_replace_range() {
    let (out, caret) = apply_editor_op(
        "ab",
        EditorOp::ReplaceRange {
            start_utf16: 1,
            end_utf16: 1,
            text: "X".into(),
        },
    );
    assert_eq!(out, "aXb");
    assert_eq!(caret, 2);
}

#[test]
fn apply_editor_op_delete_backward() {
    let (out, caret) = apply_editor_op("abc", EditorOp::DeleteBackward { caret_utf16: 2 });
    assert_eq!(out, "ac");
    assert_eq!(caret, 1);
}

#[test]
fn apply_editor_op_delete_forward() {
    let (out, caret) = apply_editor_op("abc", EditorOp::DeleteForward { caret_utf16: 1 });
    assert_eq!(out, "ac");
    assert_eq!(caret, 1);
}

#[test]
fn apply_editor_op_delete_backward_handles_surrogate_pair() {
    let (out, caret) = apply_editor_op("a😀b", EditorOp::DeleteBackward { caret_utf16: 3 });
    assert_eq!(out, "ab");
    assert_eq!(caret, 1);
}

#[test]
fn apply_editor_op_delete_forward_handles_surrogate_pair() {
    let (out, caret) = apply_editor_op("😀b", EditorOp::DeleteForward { caret_utf16: 0 });
    assert_eq!(out, "b");
    assert_eq!(caret, 0);
}

#[test]
fn decide_enter_action_single_line_enter_splits_nav() {
    let a = decide_enter_action(EnterContext {
        is_shift_pressed: false,
        has_multiline_context: false,
        caret_on_first_line: true,
        caret_in_first_line_end_zone: true,
        has_remembered_return_caret: false,
    });
    assert_eq!(a, EnterAction::SplitNav);
}

#[test]
fn decide_enter_action_single_line_shift_enter_inserts_soft_break() {
    let a = decide_enter_action(EnterContext {
        is_shift_pressed: true,
        has_multiline_context: false,
        caret_on_first_line: true,
        caret_in_first_line_end_zone: true,
        has_remembered_return_caret: false,
    });
    assert_eq!(a, EnterAction::InsertSoftBreak);
}

#[test]
fn decide_enter_action_multiline_non_first_line_enter_inserts_soft_break() {
    let a = decide_enter_action(EnterContext {
        is_shift_pressed: false,
        has_multiline_context: true,
        caret_on_first_line: false,
        caret_in_first_line_end_zone: false,
        has_remembered_return_caret: false,
    });
    assert_eq!(a, EnterAction::InsertSoftBreak);
}

#[test]
fn decide_enter_action_multiline_first_line_enter_splits_nav() {
    let a = decide_enter_action(EnterContext {
        is_shift_pressed: false,
        has_multiline_context: true,
        caret_on_first_line: true,
        caret_in_first_line_end_zone: true,
        has_remembered_return_caret: false,
    });
    assert_eq!(a, EnterAction::SplitNav);
}

#[test]
fn decide_enter_action_multiline_shift_enter_inserts_soft_break() {
    let a = decide_enter_action(EnterContext {
        is_shift_pressed: true,
        has_multiline_context: true,
        caret_on_first_line: false,
        caret_in_first_line_end_zone: false,
        has_remembered_return_caret: false,
    });
    assert_eq!(a, EnterAction::InsertSoftBreak);
}

#[test]
fn reduce_shift_enter_single_line_inserts_soft_break() {
    let s = EditorState::new("abc".to_string(), 3);
    let n = reduce_editor_state(&s, EditorIntent::Enter { shift: true });
    assert_eq!(n.text, "abc\n");
    assert_eq!(n.caret_utf16, 4);
}

#[test]
fn reduce_shift_enter_multiline_inserts_soft_break() {
    let s = EditorState::new("a\nb".to_string(), 3);
    let n = reduce_editor_state(&s, EditorIntent::Enter { shift: true });
    assert_eq!(n.text, "a\nb\n");
    assert_eq!(n.caret_utf16, 4);
}

#[test]
fn reduce_enter_multiline_second_line_inserts_soft_break() {
    let s = EditorState::new("a\nb".to_string(), 3);
    let n = reduce_editor_state(&s, EditorIntent::Enter { shift: false });
    assert_eq!(n.text, "a\nb\n");
    assert_eq!(n.caret_utf16, 4);
}

#[test]
fn reduce_backspace_at_line_start_joins_with_previous_line() {
    // "ab\ncd", caret at start of second line (utf16 pos 3)
    let s = EditorState::new("ab\ncd".to_string(), 3);
    let n = reduce_editor_state(&s, EditorIntent::Backspace);
    assert_eq!(n.text, "abcd");
    assert_eq!(n.caret_utf16, 2);
}

#[test]
fn reduce_delete_at_line_end_joins_with_next_line() {
    // "ab\ncd", caret at end of first line (utf16 pos 2)
    let s = EditorState::new("ab\ncd".to_string(), 2);
    let n = reduce_editor_state(&s, EditorIntent::Delete);
    assert_eq!(n.text, "abcd");
    assert_eq!(n.caret_utf16, 2);
}

#[test]
fn reduce_replace_range_replaces_selection_and_moves_caret() {
    let s = EditorState::new("abcd".to_string(), 1);
    let n = reduce_editor_state(
        &s,
        EditorIntent::ReplaceRange {
            start_utf16: 1,
            end_utf16: 3,
            text: "X".to_string(),
        },
    );
    assert_eq!(n.text, "aXd");
    assert_eq!(n.caret_utf16, 2);
}

#[test]
fn reduce_insert_text_inserts_at_caret() {
    let s = EditorState::new("ab".to_string(), 1);
    let n = reduce_editor_state(&s, EditorIntent::InsertText("X".to_string()));
    assert_eq!(n.text, "aXb");
    assert_eq!(n.caret_utf16, 2);
}

#[test]
fn reduce_set_caret_clamps_to_text_len() {
    let s = EditorState::new("ab".to_string(), 0);
    let n = reduce_editor_state(&s, EditorIntent::SetCaret(99));
    assert_eq!(n.caret_utf16, 2);
}

#[test]
fn reduce_shift_enter_after_backspace_to_first_line_inserts_single_soft_break() {
    let s1 = EditorState::new("a".to_string(), 1);
    let s2 = reduce_editor_state(&s1, EditorIntent::Enter { shift: true });
    assert_eq!(s2.text, "a\n");
    assert_eq!(s2.caret_utf16, 2);

    let s3 = reduce_editor_state(&s2, EditorIntent::Backspace);
    assert_eq!(s3.text, "a");
    assert_eq!(s3.caret_utf16, 1);

    let s4 = reduce_editor_state(&s3, EditorIntent::Enter { shift: true });
    assert_eq!(s4.text, "a\n");
    assert_eq!(s4.caret_utf16, 2);
}

#[test]
fn reduce_shift_enter_first_line_end_inserts_soft_break() {
    let s = EditorState {
        text: "a\nb".to_string(),
        caret_utf16: 1,
        remembered_caret_utf16: None,
    };
    let n = reduce_editor_state(&s, EditorIntent::Enter { shift: true });
    assert_eq!(n.text, "a\n\nb");
    assert_eq!(n.caret_utf16, 2);
}

#[test]
fn normalize_turns_every_line_end_into_a_newline() {
    assert_eq!(normalize_editor_text_for_persist("a\r\nb\rc\nd\r"), "a\nb\nc\nd\n");
    assert_eq!(normalize_editor_text_for_persist("\r\r\n"), "\n\n");
}

#[test]
fn line_info_at_reports_line_start_and_first_line_end() {
    assert_eq!(line_info_at("ab\ncd\ne", 0), (0, 0, 2));
    assert_eq!(line_info_at("ab\ncd\ne", 2), (0, 0, 2));
    assert_eq!(line_info_at("ab\ncd\ne", 3), (1, 3, 2));
    assert_eq!(line_info_at("ab\ncd\ne", 99), (2, 6, 2));
    assert_eq!(line_info_at("abc", 1), (0, 0, 3));
}

#[test]
fn delete_with_caret_off_a_boundary() {
    assert_eq!(
        apply_editor_op("a😀b", EditorOp::DeleteBackward { caret_utf16: 2 }),
        ("a😀b".to_string(), 1)
    );
    assert_eq!(
        apply_editor_op("ab", EditorOp::DeleteBackward { caret_utf16: 9 }),
        ("ab".to_string(), 2)
    );
    assert_eq!(
        apply_editor_op("ab", EditorOp::DeleteBackward { caret_utf16: 0 }),
        ("ab".to_string(), 0)
    );
    assert_eq!(
        apply_editor_op("a😀b", EditorOp::DeleteForward { caret_utf16: 2 }),
        ("ab".to_string(), 2)
    );
    assert_eq!(
        apply_editor_op("ab", EditorOp::DeleteForward { caret_utf16: 7 }),
        ("ab".to_string(), 2)
    );
}

#[test]
fn replace_range_takes_its_ends_in_either_order() {
    let forward = apply_editor_op(
        "abcd",
        EditorOp::ReplaceRange { start_utf16: 1, end_utf16: 3, text: "X".into() },
    );
    let backward = apply_editor_op(
        "abcd",
        EditorOp::ReplaceRange { start_utf16: 3, end_utf16: 1, text: "X".into() },
    );
    assert_eq!(forward, ("aXd".to_string(), 2));
    assert_eq!(forward, backward);
}

#[test]
fn backspace_undoes_typing_and_a_replacement_can_be_undone() {
    let s = EditorState::new("ab".to_string(), 1);
    let typed = reduce_editor_state(&s, EditorIntent::InsertText("😀".to_string()));
    assert_eq!(typed.text, "a😀b");
    assert_eq!(reduce_editor_state(&typed, EditorIntent::Backspace), s);

    let done = apply_editor_op(
        "abcd",
        EditorOp::ReplaceRange { start_utf16: 1, end_utf16: 3, text: "XYZ".into() },
    );
    let undone = apply_editor_op(
        &done.0,
        EditorOp::ReplaceRange { start_utf16: 1, end_utf16: done.1, text: "bc".into() },
    );
    assert_eq!(undone, ("abcd".to_string(), 3));
}

#[test]
fn enter_on_the_first_line_leaves_the_state() {
    let s = EditorState {
        text: "a\nb".to_string(),
        caret_utf16: 1,
        remembered_caret_utf16: Some(7),
    };
    assert_eq!(reduce_editor_state(&s, EditorIntent::Enter { shift: false }), s);
}
