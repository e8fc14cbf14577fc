//! Where links lead.
//!
//! Two titles name the same note where their normal forms are the same. The functions
//! here take the normal forms: one for each note, in order, and one for the link.

use crate::models::Note;
use crate::text::{is_blank_str, opt_str_eq, str_eq};
use vstd::prelude::*;

verus! {

use crate::models::{opt_view, str_views};
use crate::text::is_blank;

/// The place of the first note of a database whose title has a given normal form.
pub open spec fn note_index(
    notes: Seq<Note>,
    keys: Seq<Seq<char>>,
    db: Seq<char>,
    key: Seq<char>,
) -> Option<int>
    decreases notes.len(),
{
    if notes.len() == 0 {
        None
    } else {
        match note_index(notes.drop_last(), keys, db, key) {
            Some(i) => Some(i),
            None => {
                let k = notes.len() - 1;
                if notes[k].database_id@ == db && keys[k] == key {
                    Some(k)
                } else {
                    None
                }
            },
        }
    }
}

proof fn lemma_note_index_prefix(
    notes: Seq<Note>,
    keys: Seq<Seq<char>>,
    db: Seq<char>,
    key: Seq<char>,
    k: int,
)
    requires
        0 <= k <= notes.len(),
        note_index(notes.take(k), keys, db, key) is Some,
    ensures
        note_index(notes, keys, db, key) == note_index(notes.take(k), keys, db, key),
    decreases notes.len() - k,
{
    if k < notes.len() {
        assert(notes.take(k + 1).drop_last() =~= notes.take(k));
        lemma_note_index_prefix(notes, keys, db, key, k + 1);
    } else {
        assert(notes.take(k) =~= notes);
    }
}

/// A link leads to the first note of the database that has the title, and nowhere if there
/// is none.
pub proof fn law_link_leads_to_the_first_note(
    notes: Seq<Note>,
    keys: Seq<Seq<char>>,
    db: Seq<char>,
    key: Seq<char>,
)
    ensures
        match note_index(notes, keys, db, key) {
            Some(i) => 0 <= i < notes.len() && notes[i].database_id@ == db && keys[i] == key
                && forall|j: int|
                0 <= j < i ==> !((#[trigger] notes[j]).database_id@ == db && keys[j] == key),
            None => forall|j: int|
                0 <= j < notes.len() ==> !((#[trigger] notes[j]).database_id@ == db && keys[j]
                    == key),
        },
    decreases notes.len(),
{
    if notes.len() > 0 {
        let p = notes.drop_last();
        law_link_leads_to_the_first_note(p, keys, db, key);
        assert forall|j: int| 0 <= j < p.len() implies p[j] == notes[j] by {}
        match note_index(p, keys, db, key) {
            Some(i) => {
                assert forall|j: int| 0 <= j < i implies !((#[trigger] notes[j]).database_id@ == db
                    && keys[j] == key) by {
                    assert(p[j] == notes[j]);
                }
            },
            None => {
                assert forall|j: int| 0 <= j < p.len() implies !((
                #[trigger] notes[j]).database_id@ == db && keys[j] == key) by {
                    assert(p[j] == notes[j]);
                }
            },
        }
    }
}

/// Finds the note that a link leads to.
pub fn find_note(notes: &[Note], title_keys: &[String], db_id: &str, title_key: &str) -> (r: Option<
    usize,
>)
    requires
        title_keys@.len() == notes@.len(),
    ensures
        match r {
            Some(i) => i < notes@.len() && note_index(
                notes@,
                str_views(title_keys@),
                db_id@,
                title_key@,
            ) == Some(i as int),
            None => note_index(notes@, str_views(title_keys@), db_id@, title_key@) is None,
        },
{
    let ghost keys = str_views(title_keys@);
    let mut i: usize = 0;
    while i < notes.len()
        invariant
            i <= notes@.len(),
            title_keys@.len() == notes@.len(),
            keys == str_views(title_keys@),
            note_index(notes@.take(i as int), keys, db_id@, title_key@) is None,
        decreases notes@.len() - i,
    {
        proof {
            assert(notes@.take(i + 1).drop_last() =~= notes@.take(i as int));
            assert(keys[i as int] == title_keys@[i as int]@);
        }
        if str_eq(notes[i].database_id.as_str(), db_id) && str_eq(
            title_keys[i].as_str(),
            title_key,
        ) {
            proof {
                lemma_note_index_prefix(notes@, keys, db_id@, title_key@, i + 1);
            }
            return Some(i);
        }
        i = i + 1;
    }
    assert(notes@.take(i as int) =~= notes@);
    None
}

/// Whether a link leads to a note, and whether that is the note it stands in.
pub fn resolve_wiki_link_target(
    notes: &[Note],
    title_keys: &[String],
    db_id: &str,
    current_note_id: &str,
    title_key: &str,
) -> (r: (bool, bool))
    requires
        title_keys@.len() == notes@.len(),
    ensures
        r.0 == (note_index(notes@, str_views(title_keys@), db_id@, title_key@) is Some),
        r.1 == (note_index(notes@, str_views(title_keys@), db_id@, title_key@) matches Some(i)
            && notes@[i].id@ == current_note_id@),
{
    match find_note(notes, title_keys, db_id, title_key) {
        Some(i) => (true, str_eq(notes[i].id.as_str(), current_note_id)),
        None => (false, false),
    }
}

/// Whether there is a note that a link leads to. In no database there is none.
pub fn wiki_link_exists(notes: &[Note], title_keys: &[String], db_id: &str, title_key: &str) -> (r: bool)
    requires
        title_keys@.len() == notes@.len(),
    ensures
        r == (!is_blank(db_id@) && note_index(
            notes@,
            str_views(title_keys@),
            db_id@,
            title_key@,
        ) is Some),
{
    if is_blank_str(db_id) {
        return false;
    }
    find_note(notes, title_keys, db_id, title_key).is_some()
}

/// What a click on a link does.
#[derive(Debug, PartialEq, Eq)]
pub enum LinkAction {
    /// The link leads to the note that it stands in: its row is highlighted.
    FlashSelf,
    /// The link leads to another note, which is opened.
    Open(String),
    /// No note is known that the link leads to.
    Unknown,
}

/// What a click on a link does, as far as the notes are known.
pub fn follow_link(
    notes: &[Note],
    title_keys: &[String],
    db_id: &str,
    current_note_id: &str,
    title_key: &str,
) -> (r: LinkAction)
    requires
        title_keys@.len() == notes@.len(),
    ensures
        match note_index(notes@, str_views(title_keys@), db_id@, title_key@) {
            None => r is Unknown,
            Some(i) => if notes@[i].id@ == current_note_id@ {
                r is FlashSelf
            } else {
                r matches LinkAction::Open(id) && id@ == notes@[i].id@
            },
        },
{
    match find_note(notes, title_keys, db_id, title_key) {
        None => LinkAction::Unknown,
        Some(i) => if str_eq(notes[i].id.as_str(), current_note_id) {
            LinkAction::FlashSelf
        } else {
            LinkAction::Open(notes[i].id.clone())
        },
    }
}

/// Whether a list of notes has one with an id.
pub open spec fn has_note(notes: Seq<Note>, id: Seq<char>) -> bool {
    exists|i: int| 0 <= i < notes.len() && (#[trigger] notes[i]).id@ == id
}

/// Takes up a note that was made for a link. One without an id is not taken up; one that
/// is there already is not added again. Tells whether the note can be opened.
pub fn take_up_created_note(notes: &mut Vec<Note>, note: Note) -> (r: bool)
    ensures
        r == !is_blank(note.id@),
        final(notes)@ == (if is_blank(note.id@) || has_note(old(notes)@, note.id@) {
            old(notes)@
        } else {
            old(notes)@.push(note)
        }),
{
    if is_blank_str(note.id.as_str()) {
        return false;
    }
    let mut i: usize = 0;
    while i < notes.len()
        invariant
            i <= notes@.len(),
            notes@ == old(notes)@,
            forall|j: int| 0 <= j < i ==> (#[trigger] notes@[j]).id@ != note.id@,
            !is_blank(note.id@),
        decreases notes@.len() - i,
    {
        if str_eq(notes[i].id.as_str(), note.id.as_str()) {
            return true;
        }
        i = i + 1;
    }
    notes.push(note);
    true
}

/// The title of a note.
pub fn note_title(notes: &[Note], note_id: &str) -> (r: Option<String>)
    ensures
        match r {
            Some(t) => exists|i: int|
                0 <= i < notes@.len() && (#[trigger] notes@[i]).id@ == note_id@ && notes@[i].title@
                    == t@ && forall|j: int|
                    0 <= j < i ==> (#[trigger] notes@[j]).id@ != note_id@,
            None => !has_note(notes@, note_id@),
        },
{
    let mut i: usize = 0;
    while i < notes.len()
        invariant
            i <= notes@.len(),
            forall|j: int| 0 <= j < i ==> (#[trigger] notes@[j]).id@ != note_id@,
        decreases notes@.len() - i,
    {
        if str_eq(notes[i].id.as_str(), note_id) {
            return Some(notes[i].title.clone());
        }
        i = i + 1;
    }
    None
}

// ---- the preview of a link ----

/// The line that stands for a preview that cannot be had offline.
pub const PREVIEW_OFFLINE: &'static str = "Offline: preview unavailable";

/// How many lines a preview has.
pub const PREVIEW_LINES: usize = 8;

/// The preview of the note that a link leads to.
#[derive(Debug, PartialEq, Eq)]
pub struct LinkPreview {
    pub loading: bool,
    pub error: Option<String>,
    pub lines: Vec<String>,
    /// The title that the preview is, or will be, of.
    pub loaded_for: Option<String>,
}

/// What a `LinkPreview` holds.
#[verifier::ext_equal]
pub struct PreviewView {
    pub loading: bool,
    pub error: Option<Seq<char>>,
    pub lines: Seq<Seq<char>>,
    pub loaded_for: Option<Seq<char>>,
}

impl View for LinkPreview {
    type V = PreviewView;

    open spec fn view(&self) -> PreviewView {
        PreviewView {
            loading: self.loading,
            error: opt_view(self.error),
            lines: str_views(self.lines@),
            loaded_for: opt_view(self.loaded_for),
        }
    }
}

/// What pointing at a link asks for.
#[derive(Debug, Clone, Copy, PartialEq, Eq, Structural)]
pub enum HoverAction {
    /// Nothing: the link leads nowhere or to its own note.
    Ignore,
    /// To show the preview as it is.
    Show,
    /// To show the preview and to load it.
    ShowAndLoad,
}

/// What a call to the server for a preview came to.
pub enum PreviewReply {
    Lines(Vec<String>),
    /// The server cannot be reached.
    Offline,
    Failed(String),
    /// There is no such note.
    Missing,
}

impl LinkPreview {
    pub fn new() -> (r: Self)
        ensures
            r@ == (PreviewView {
                loading: false,
                error: None,
                lines: Seq::empty(),
                loaded_for: None,
            }),
    {
        let r = LinkPreview { loading: false, error: None, lines: Vec::new(), loaded_for: None };
        assert(r@.lines =~= Seq::<Seq<char>>::empty());
        r
    }

    /// Answers that a link is pointed at. A preview is loaded once for each title.
    pub fn on_hover(&mut self, link_exists: bool, is_self: bool, title: &str, online: bool) -> (r:
        HoverAction)
        ensures
            r == (if !link_exists || is_self {
                HoverAction::Ignore
            } else if old(self)@.loaded_for == Some(title@) || !online {
                HoverAction::Show
            } else {
                HoverAction::ShowAndLoad
            }),
            final(self)@ == (if !link_exists || is_self || old(self)@.loaded_for == Some(title@) {
                old(self)@
            } else {
                PreviewView {
                    loading: online,
                    error: None,
                    lines: if online {
                        Seq::empty()
                    } else {
                        seq![PREVIEW_OFFLINE@]
                    },
                    loaded_for: Some(title@),
                }
            }),
    {
        if !link_exists || is_self {
            return HoverAction::Ignore;
        }
        if opt_str_eq(&self.loaded_for, title) {
            return HoverAction::Show;
        }
        self.loaded_for = Some(title.to_string());
        self.error = None;
        self.lines = Vec::new();
        if online {
            self.loading = true;
            assert(str_views(self.lines@) =~= Seq::<Seq<char>>::empty());
            HoverAction::ShowAndLoad
        } else {
            self.loading = false;
            self.lines.push(PREVIEW_OFFLINE.to_string());
            assert(str_views(self.lines@) =~= seq![PREVIEW_OFFLINE@]);
            HoverAction::Show
        }
    }

    /// Takes up what the server said.
    pub fn on_reply(&mut self, reply: PreviewReply)
        ensures
            final(self)@ == (match reply {
                PreviewReply::Lines(lines) => PreviewView {
                    loading: false,
                    lines: str_views(lines@),
                    ..old(self)@
                },
                PreviewReply::Offline => PreviewView {
                    loading: false,
                    error: None,
                    lines: seq![PREVIEW_OFFLINE@],
                    ..old(self)@
                },
                PreviewReply::Failed(e) => PreviewView {
                    loading: false,
                    error: Some(e@),
                    ..old(self)@
                },
                PreviewReply::Missing => PreviewView { loading: false, ..old(self)@ },
            }),
    {
        self.loading = false;
        match reply {
            PreviewReply::Lines(lines) => {
                self.lines = lines;
            },
            PreviewReply::Offline => {
                self.error = None;
                self.lines = Vec::new();
                self.lines.push(PREVIEW_OFFLINE.to_string());
                assert(str_views(self.lines@) =~= seq![PREVIEW_OFFLINE@]);
            },
            PreviewReply::Failed(e) => {
                self.error = Some(e);
            },
            PreviewReply::Missing => {},
        }
    }
}

/// Whether a link that is pointed at in the editor shows a hint: one with a title, where
/// a click follows it, and not one to its own note.
pub fn shows_edit_hint(title: &str, clickable: bool, is_self: bool) -> (r: bool)
    ensures
        r == (!is_blank(title@) && clickable && !is_self),
{
    !is_blank_str(title) && clickable && !is_self
}

} // verus!
