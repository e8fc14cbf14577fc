//! What a key that is pressed in an open row asks for.

use crate::editor::autocomplete::AcKey;
use crate::editor::edit::EditorAtom;
use crate::editor::lines::{has_any_text_content, outline_delete_state, OutlineDeleteState};
use crate::text::str_eq;
use vstd::prelude::*;

verus! {

use crate::editor::dom::{atom_views, AtomView};
use crate::editor::lines::shows_text;

/// What a key asks for.
#[derive(Debug, Clone, Copy, PartialEq, Eq, Structural)]
pub enum KeyAction {
    /// The menu answers the key.
    Menu(AcKey),
    /// The row moves up or down among its siblings.
    Move { up: bool },
    /// The caret goes to the row above or below.
    Jump { up: bool },
    /// The caret goes a line up or down.
    StepLine { up: bool },
    /// The caret goes left or right.
    StepAside { left: bool },
    /// The row moves a level down or up.
    Level { down: bool },
    /// Something is deleted, before the caret or behind it.
    Delete { back: bool },
    /// The line ends, or the row is split.
    Enter { shift: bool },
    /// Nothing that the outline has to do with.
    Pass,
}

/// The key that the open menu answers to, if it does. With Shift, Enter is not for the menu.
pub open spec fn menu_key_of(key: Seq<char>, shift: bool) -> Option<AcKey> {
    if key == "ArrowDown"@ {
        Some(AcKey::Down)
    } else if key == "ArrowUp"@ {
        Some(AcKey::Up)
    } else if key == "Escape"@ {
        Some(AcKey::Escape)
    } else if key == "Tab"@ || (key == "Enter"@ && !shift) {
        Some(AcKey::Choose)
    } else {
        None
    }
}

/// What a key asks for while no menu is open. Up and down depend on the modifiers: Alt goes
/// before Ctrl and Meta, and Shift alone leaves the key to the browser.
pub open spec fn row_key_of(key: Seq<char>, shift: bool, alt: bool, command: bool) -> KeyAction {
    let up = key == "ArrowUp"@;
    if up || key == "ArrowDown"@ {
        if alt {
            KeyAction::Move { up }
        } else if command {
            KeyAction::Jump { up }
        } else if shift {
            KeyAction::Pass
        } else {
            KeyAction::StepLine { up }
        }
    } else if key == "ArrowLeft"@ || key == "ArrowRight"@ {
        KeyAction::StepAside { left: key == "ArrowLeft"@ }
    } else if key == "Tab"@ {
        KeyAction::Level { down: !shift }
    } else if key == "Backspace"@ || key == "Delete"@ {
        KeyAction::Delete { back: key == "Backspace"@ }
    } else if key == "Enter"@ {
        KeyAction::Enter { shift }
    } else {
        KeyAction::Pass
    }
}

/// What a key asks for. An open menu comes first.
pub open spec fn key_action_of(
    key: Seq<char>,
    shift: bool,
    alt: bool,
    command: bool,
    menu_open: bool,
) -> KeyAction {
    match menu_key_of(key, shift) {
        Some(k) if menu_open => KeyAction::Menu(k),
        _ => row_key_of(key, shift, alt, command),
    }
}

fn menu_key(key: &str, shift: bool) -> (r: Option<AcKey>)
    ensures
        r == menu_key_of(key@, shift),
{
    if str_eq(key, "ArrowDown") {
        Some(AcKey::Down)
    } else if str_eq(key, "ArrowUp") {
        Some(AcKey::Up)
    } else if str_eq(key, "Escape") {
        Some(AcKey::Escape)
    } else if str_eq(key, "Tab") || (str_eq(key, "Enter") && !shift) {
        Some(AcKey::Choose)
    } else {
        None
    }
}

/// What a key asks for. `command` tells whether Ctrl or Meta is held.
pub fn key_action(key: &str, shift: bool, alt: bool, command: bool, menu_open: bool) -> (r: KeyAction)
    ensures
        r == key_action_of(key@, shift, alt, command, menu_open),
{
    if menu_open {
        if let Some(k) = menu_key(key, shift) {
            return KeyAction::Menu(k);
        }
    }
    let up: bool = str_eq(key, "ArrowUp");
    let left: bool = str_eq(key, "ArrowLeft");
    let back: bool = str_eq(key, "Backspace");
    if up || str_eq(key, "ArrowDown") {
        if alt {
            KeyAction::Move { up }
        } else if command {
            KeyAction::Jump { up }
        } else if shift {
            KeyAction::Pass
        } else {
            KeyAction::StepLine { up }
        }
    } else if left || str_eq(key, "ArrowRight") {
        KeyAction::StepAside { left }
    } else if str_eq(key, "Tab") {
        KeyAction::Level { down: !shift }
    } else if back || str_eq(key, "Delete") {
        KeyAction::Delete { back }
    } else if str_eq(key, "Enter") {
        KeyAction::Enter { shift }
    } else {
        KeyAction::Pass
    }
}

// ---- the delete keys ----

/// What a delete key does in a row.
#[derive(Debug, Clone, Copy, PartialEq, Eq, Structural)]
pub enum DeletePlan {
    /// The row holds nothing but line ends, and loses the last of them.
    DropBreak,
    /// The row is empty and goes.
    DeleteRow,
    /// Text is deleted.
    DeleteText,
}

/// The number of line ends among atoms.
pub open spec fn soft_breaks(vs: Seq<AtomView>) -> nat
    decreases vs.len(),
{
    if vs.len() == 0 {
        0
    } else {
        soft_breaks(vs.drop_last()) + (if vs.last() is SoftBreak {
            1nat
        } else {
            0nat
        })
    }
}

/// What a delete key does in a row that is made of atoms and whose text is `persisted`, with
/// the selection from `start` to `end`. Line ends that are selected are deleted as text.
pub open spec fn delete_plan_of(
    vs: Seq<AtomView>,
    persisted: Seq<char>,
    start: u32,
    end: u32,
) -> DeletePlan {
    if shows_text(persisted) {
        DeletePlan::DeleteText
    } else if soft_breaks(vs) == 0 {
        DeletePlan::DeleteRow
    } else if start == end {
        DeletePlan::DropBreak
    } else {
        DeletePlan::DeleteText
    }
}

fn count_breaks(atoms: &[EditorAtom]) -> (r: u32)
    requires
        atoms@.len() <= u32::MAX,
    ensures
        r == soft_breaks(atom_views(atoms@)),
{
    let ghost vs = atom_views(atoms@);
    let mut n: u32 = 0;
    let mut i: usize = 0;
    assert(vs.take(0) =~= Seq::<AtomView>::empty());
    while i < atoms.len()
        invariant
            i <= atoms@.len() <= u32::MAX,
            vs == atom_views(atoms@),
            n <= i,
            n == soft_breaks(vs.take(i as int)),
        decreases atoms@.len() - i,
    {
        assert(vs.take(i + 1).drop_last() =~= vs.take(i as int));
        assert(vs.take(i + 1).last() == atoms@[i as int]@);
        if let EditorAtom::SoftBreak = &atoms[i] {
            n = n + 1;
        }
        i = i + 1;
    }
    assert(vs.take(i as int) =~= vs);
    n
}

/// What a delete key does in a row.
pub fn delete_plan(atoms: &[EditorAtom], persisted: &str, start: u32, end: u32) -> (r: DeletePlan)
    requires
        atoms@.len() <= u32::MAX,
    ensures
        r == delete_plan_of(atom_views(atoms@), persisted@, start, end),
{
    match outline_delete_state(has_any_text_content(persisted), count_breaks(atoms)) {
        OutlineDeleteState::OnlySoftBreaks => if start == end {
            DeletePlan::DropBreak
        } else {
            DeletePlan::DeleteText
        },
        OutlineDeleteState::Empty => DeletePlan::DeleteRow,
        OutlineDeleteState::HasContent => DeletePlan::DeleteText,
    }
}

// ---- laws ----

/// The arrow keys up and down ask for the same, each in its own direction: with Alt the row
/// moves, with Ctrl or Meta the caret goes to the next row, with Shift alone nothing is
/// asked for, and else the caret goes a line.
pub proof fn law_up_and_down_ask_alike(shift: bool, alt: bool, command: bool)
    ensures
        row_key_of("ArrowUp"@, shift, true, command) == (KeyAction::Move { up: true }),
        row_key_of("ArrowDown"@, shift, true, command) == (KeyAction::Move { up: false }),
        row_key_of("ArrowUp"@, shift, false, true) == (KeyAction::Jump { up: true }),
        row_key_of("ArrowDown"@, shift, false, true) == (KeyAction::Jump { up: false }),
        row_key_of("ArrowUp"@, true, false, false) == KeyAction::Pass,
        row_key_of("ArrowDown"@, true, false, false) == KeyAction::Pass,
        row_key_of("ArrowUp"@, false, false, false) == (KeyAction::StepLine { up: true }),
        row_key_of("ArrowDown"@, false, false, false) == (KeyAction::StepLine { up: false }),
        row_key_of("ArrowLeft"@, shift, alt, command) == (KeyAction::StepAside { left: true }),
        row_key_of("ArrowRight"@, shift, alt, command) == (KeyAction::StepAside { left: false }),
        row_key_of("Tab"@, shift, alt, command) == (KeyAction::Level { down: !shift }),
        row_key_of("Backspace"@, shift, alt, command) == (KeyAction::Delete { back: true }),
        row_key_of("Delete"@, shift, alt, command) == (KeyAction::Delete { back: false }),
        row_key_of("Enter"@, shift, alt, command) == (KeyAction::Enter { shift }),
{
    lemma_key_names();
}

proof fn lemma_key_names()
    ensures
        "ArrowUp"@.len() == 7,
        "ArrowDown"@.len() == 9,
        "ArrowDown"@[0] == 'A',
        "ArrowLeft"@.len() == 9,
        "ArrowLeft"@[5] == 'L',
        "ArrowDown"@[5] == 'D',
        "ArrowRight"@.len() == 10,
        "Tab"@.len() == 3,
        "Backspace"@.len() == 9,
        "Backspace"@[0] == 'B',
        "ArrowLeft"@[0] == 'A',
        "Delete"@.len() == 6,
        "Delete"@[0] == 'D',
        "Enter"@.len() == 5,
        "Escape"@.len() == 6,
        "Escape"@[0] == 'E',
{
    reveal_strlit("ArrowUp");
    reveal_strlit("ArrowDown");
    reveal_strlit("ArrowLeft");
    reveal_strlit("ArrowRight");
    reveal_strlit("Tab");
    reveal_strlit("Backspace");
    reveal_strlit("Delete");
    reveal_strlit("Enter");
    reveal_strlit("Escape");
}

/// The menu answers only while it is open: the arrow keys up and down choose, Escape
/// closes it, and Tab, or Enter without Shift, takes what is chosen. Every other key, and
/// every key while it is closed, is for the row.
pub proof fn law_menu_answers_while_it_is_open(
    key: Seq<char>,
    shift: bool,
    alt: bool,
    command: bool,
)
    ensures
        key_action_of(key, shift, alt, command, false) == row_key_of(key, shift, alt, command),
        key_action_of("ArrowDown"@, shift, alt, command, true) == KeyAction::Menu(AcKey::Down),
        key_action_of("ArrowUp"@, shift, alt, command, true) == KeyAction::Menu(AcKey::Up),
        key_action_of("Escape"@, shift, alt, command, true) == KeyAction::Menu(AcKey::Escape),
        key_action_of("Tab"@, shift, alt, command, true) == KeyAction::Menu(AcKey::Choose),
        key_action_of("Enter"@, false, alt, command, true) == KeyAction::Menu(AcKey::Choose),
        key_action_of("Enter"@, true, alt, command, true) == (KeyAction::Enter { shift: true }),
        key != "ArrowDown"@ && key != "ArrowUp"@ && key != "Escape"@ && key != "Tab"@ && key
            != "Enter"@ ==> key_action_of(key, shift, alt, command, true) == row_key_of(
            key,
            shift,
            alt,
            command,
        ),
{
    lemma_key_names();
    law_up_and_down_ask_alike(true, alt, command);
}

proof fn lemma_soft_breaks(vs: Seq<AtomView>)
    ensures
        soft_breaks(vs) > 0 <==> exists|i: int| 0 <= i < vs.len() && #[trigger] vs[i] is SoftBreak,
    decreases vs.len(),
{
    if vs.len() > 0 {
        let p = vs.drop_last();
        lemma_soft_breaks(p);
        if soft_breaks(p) > 0 {
            let i = choose|i: int| 0 <= i < p.len() && #[trigger] p[i] is SoftBreak;
            assert(vs[i] is SoftBreak);
        } else if exists|i: int| 0 <= i < vs.len() && #[trigger] vs[i] is SoftBreak {
            let i = choose|i: int| 0 <= i < vs.len() && #[trigger] vs[i] is SoftBreak;
            if i < p.len() {
                assert(p[i] is SoftBreak);
            }
        }
        if vs.last() is SoftBreak {
            assert(vs[vs.len() - 1] is SoftBreak);
        }
    }
}

/// A delete key takes a row away exactly if the row shows no text and holds no line end.
/// It drops a line end exactly if the row holds nothing else and nothing is selected.
pub proof fn law_only_an_empty_row_is_taken_away(
    vs: Seq<AtomView>,
    persisted: Seq<char>,
    start: u32,
    end: u32,
)
    ensures
        ({
            let breaks = exists|i: int| 0 <= i < vs.len() && #[trigger] vs[i] is SoftBreak;
            let plan = delete_plan_of(vs, persisted, start, end);
            &&& plan is DeleteRow <==> !shows_text(persisted) && !breaks
            &&& plan is DropBreak <==> !shows_text(persisted) && breaks && start == end
        }),
{
    lemma_soft_breaks(vs);
}

} // verus!
