//! What is stored of local changes, and what each change writes there.

use crate::drafts::index::{index_remove_note, index_touch_note};
use crate::drafts::note::{
    draft_key, has_nav_scope, has_note_scope, load_note_draft, mark_nav_meta_synced,
    mark_nav_sync_failed, mark_nav_synced, mark_title_sync_failed, mark_title_synced,
    save_note_draft, touch_nav, touch_nav_meta, touch_title, NoteDraft, NOTE_DRAFT_SCHEMA_CURRENT,
};
use crate::drafts::queue::is_note_fully_synced;
use crate::models::Nav;
use crate::text::str_eq;
use vstd::prelude::*;

verus! {

use crate::drafts::index::index_key;
use crate::drafts::note::{
    draft_name, later, meta_synced, meta_touched, nav_failed, nav_synced, nav_touched, opened,
    stored_view, title_failed, title_synced, title_touched, DraftView,
};
use crate::drafts::queue::{
    fully_synced, law_sent_text_leaves_a_clean_draft, law_sent_title_leaves_a_clean_draft,
    title_synced_at,
};
use crate::models::str_views;
use crate::strset::ascending;
use crate::text::is_blank;

/// What is stored: the names of the notes with local changes, and the draft of one note.
#[derive(Debug)]
pub struct DraftStore {
    pub index: Vec<String>,
    pub draft: Option<NoteDraft>,
}

/// What to write: the index; a draft, under its own names; and whether to take out what is
/// stored of the note after that.
#[derive(Debug)]
pub struct DraftWrite {
    pub index: Vec<String>,
    pub write: Option<NoteDraft>,
    pub remove: bool,
}

/// The names of the notes with local changes.
pub open spec fn names(index: Seq<String>) -> Set<Seq<char>> {
    str_views(index).to_set()
}

impl DraftStore {
    /// Whether the index is in order, and the draft of the current form and in order.
    pub open spec fn wf(self) -> bool {
        &&& ascending(str_views(self.index@))
        &&& self.draft matches Some(d) ==> d.schema_version == NOTE_DRAFT_SCHEMA_CURRENT && d@.wf()
    }

    /// The draft of a note as it is worked on.
    pub open spec fn open(self, db: Seq<char>, note: Seq<char>) -> DraftView {
        opened(stored_view(self.draft), db, note)
    }
}

/// Nothing is written.
pub open spec fn nothing_written(s: DraftStore, w: DraftWrite) -> bool {
    &&& w.index@ == s.index@
    &&& w.write is None
    &&& !w.remove
}

/// A changed draft is written, and its note put into the index.
pub open spec fn change_written(
    s: DraftStore,
    w: DraftWrite,
    db: Seq<char>,
    note: Seq<char>,
    d: DraftView,
) -> bool {
    &&& names(w.index@) == names(s.index@).insert(index_key(db, note))
    &&& ascending(str_views(w.index@))
    &&& stored_view(w.write) == Some(d)
    &&& !w.remove
}

/// Whether a draft is stored under the same name as that of a note.
pub open spec fn is_stored_as(d: DraftView, db: Seq<char>, note: Seq<char>) -> bool {
    draft_name(d.db_id, d.note_id) == draft_name(db, note)
}

/// What is stored of a note once a draft was written under its own names.
pub open spec fn stored_then(s: DraftStore, db: Seq<char>, note: Seq<char>, d: DraftView) -> DraftView {
    if is_stored_as(d, db, note) {
        d
    } else {
        s.open(db, note)
    }
}

/// A draft is written of which the server has some more. If it has everything, the note
/// leaves the index and nothing stays stored of it.
pub open spec fn sync_written(
    s: DraftStore,
    w: DraftWrite,
    db: Seq<char>,
    note: Seq<char>,
    d: DraftView,
) -> bool {
    &&& names(w.index@) == if fully_synced(stored_then(s, db, note, d)) {
        names(s.index@).remove(index_key(db, note))
    } else {
        names(s.index@)
    }
    &&& ascending(str_views(w.index@))
    &&& stored_view(w.write) == Some(d)
    &&& w.remove == fully_synced(stored_then(s, db, note, d))
}

fn write_nothing(s: DraftStore) -> (w: DraftWrite)
    ensures
        nothing_written(s, w),
{
    DraftWrite { index: s.index, write: None, remove: false }
}

/// The names of a draft that was opened are there, and its form is the current one.
proof fn lemma_opened_is_named(stored: Option<DraftView>, db: Seq<char>, note: Seq<char>)
    requires
        !is_blank(db),
        !is_blank(note),
    ensures
        ({
            let d = opened(stored, db, note);
            &&& !is_blank(d.db_id)
            &&& !is_blank(d.note_id)
            &&& d.schema_version == NOTE_DRAFT_SCHEMA_CURRENT
        }),
{
}

fn write_change(index: Vec<String>, db_id: &str, note_id: &str, d: NoteDraft) -> (w: DraftWrite)
    requires
        ascending(str_views(index@)),
        !is_blank(db_id@),
        !is_blank(note_id@),
        !is_blank(d@.db_id),
        !is_blank(d@.note_id),
        d@.schema_version == NOTE_DRAFT_SCHEMA_CURRENT,
    ensures
        names(w.index@) == names(index@).insert(index_key(db_id@, note_id@)),
        ascending(str_views(w.index@)),
        stored_view(w.write) == Some(d@),
        !w.remove,
{
    let mut ix = index;
    let ghost before = str_views(ix@);
    index_touch_note(&mut ix, db_id, note_id);
    assert(names(ix@) =~= before.to_set().insert(index_key(db_id@, note_id@)));
    let write = save_note_draft(d);
    DraftWrite { index: ix, write, remove: false }
}

fn write_sync(index: Vec<String>, was_synced: bool, db_id: &str, note_id: &str, d: NoteDraft) -> (w:
    DraftWrite)
    requires
        ascending(str_views(index@)),
        !is_blank(db_id@),
        !is_blank(note_id@),
        !is_blank(d@.db_id),
        !is_blank(d@.note_id),
        d@.schema_version == NOTE_DRAFT_SCHEMA_CURRENT,
    ensures
        ({
            let clean = if is_stored_as(d@, db_id@, note_id@) {
                fully_synced(d@)
            } else {
                was_synced
            };
            &&& names(w.index@) == if clean {
                names(index@).remove(index_key(db_id@, note_id@))
            } else {
                names(index@)
            }
            &&& ascending(str_views(w.index@))
            &&& stored_view(w.write) == Some(d@)
            &&& w.remove == clean
        }),
{
    let own_key = draft_key(d.db_id.as_str(), d.note_id.as_str());
    let here: bool = str_eq(own_key.as_str(), draft_key(db_id, note_id).as_str());
    let clean = if here {
        is_note_fully_synced(&d)
    } else {
        was_synced
    };
    let mut ix = index;
    let ghost before = str_views(ix@);
    if clean {
        index_remove_note(&mut ix, db_id, note_id);
        assert(names(ix@) =~= before.to_set().remove(index_key(db_id@, note_id@)));
    }
    let write = save_note_draft(d);
    DraftWrite { index: ix, write, remove: clean }
}

impl DraftStore {
    /// Changes the title of a note. Without names nothing is written.
    pub fn touch_title(self, db_id: &str, note_id: &str, title: &str, now_ms: i64) -> (w: DraftWrite)
        requires
            self.wf(),
        ensures
            if is_blank(db_id@) || is_blank(note_id@) {
                nothing_written(self, w)
            } else {
                change_written(
                    self,
                    w,
                    db_id@,
                    note_id@,
                    title_touched(self.open(db_id@, note_id@), title@, now_ms),
                )
            },
    {
        if !has_note_scope(db_id, note_id) {
            return write_nothing(self);
        }
        proof {
            lemma_opened_is_named(stored_view(self.draft), db_id@, note_id@);
        }
        let mut d = load_note_draft(self.draft, db_id, note_id);
        touch_title(&mut d, title, now_ms);
        write_change(self.index, db_id, note_id, d)
    }

    /// Changes the text of a row. Without names nothing is written.
    pub fn touch_nav(self, db_id: &str, note_id: &str, nav_id: &str, content: &str, now_ms: i64) -> (w:
        DraftWrite)
        requires
            self.wf(),
        ensures
            if is_blank(db_id@) || is_blank(note_id@) || is_blank(nav_id@) {
                nothing_written(self, w)
            } else {
                change_written(
                    self,
                    w,
                    db_id@,
                    note_id@,
                    nav_touched(self.open(db_id@, note_id@), nav_id@, content@, now_ms),
                )
            },
    {
        if !has_nav_scope(db_id, note_id, nav_id) {
            return write_nothing(self);
        }
        proof {
            lemma_opened_is_named(stored_view(self.draft), db_id@, note_id@);
        }
        let mut d = load_note_draft(self.draft, db_id, note_id);
        touch_nav(&mut d, nav_id, content, now_ms);
        write_change(self.index, db_id, note_id, d)
    }

    /// Changes the place and state of a row. Without names nothing is written.
    pub fn touch_nav_meta(self, db_id: &str, note_id: &str, nav: &Nav, now_ms: i64) -> (w: DraftWrite)
        requires
            self.wf(),
        ensures
            if is_blank(db_id@) || is_blank(note_id@) || is_blank(nav@.id) {
                nothing_written(self, w)
            } else {
                change_written(
                    self,
                    w,
                    db_id@,
                    note_id@,
                    meta_touched(self.open(db_id@, note_id@), nav@, now_ms),
                )
            },
    {
        if !has_nav_scope(db_id, note_id, nav.id.as_str()) {
            return write_nothing(self);
        }
        proof {
            lemma_opened_is_named(stored_view(self.draft), db_id@, note_id@);
        }
        let mut d = load_note_draft(self.draft, db_id, note_id);
        touch_nav_meta(&mut d, nav, now_ms);
        write_change(self.index, db_id, note_id, d)
    }

    /// Notes that sending the title has failed. Without names nothing is written.
    pub fn mark_title_sync_failed(
        self,
        db_id: &str,
        note_id: &str,
        retry_from_ms: i64,
        now_ms: i64,
    ) -> (w: DraftWrite)
        requires
            self.wf(),
        ensures
            if is_blank(db_id@) || is_blank(note_id@) {
                nothing_written(self, w)
            } else {
                change_written(
                    self,
                    w,
                    db_id@,
                    note_id@,
                    title_failed(self.open(db_id@, note_id@), retry_from_ms, now_ms),
                )
            },
    {
        if !has_note_scope(db_id, note_id) {
            return write_nothing(self);
        }
        proof {
            lemma_opened_is_named(stored_view(self.draft), db_id@, note_id@);
        }
        let mut d = load_note_draft(self.draft, db_id, note_id);
        mark_title_sync_failed(&mut d, retry_from_ms, now_ms);
        write_change(self.index, db_id, note_id, d)
    }

    /// Notes that sending the changes of a row has failed. Without names nothing is written.
    pub fn mark_nav_sync_failed(
        self,
        db_id: &str,
        note_id: &str,
        nav_id: &str,
        retry_from_ms: i64,
        now_ms: i64,
    ) -> (w: DraftWrite)
        requires
            self.wf(),
        ensures
            if is_blank(db_id@) || is_blank(note_id@) || is_blank(nav_id@) {
                nothing_written(self, w)
            } else {
                change_written(
                    self,
                    w,
                    db_id@,
                    note_id@,
                    nav_failed(self.open(db_id@, note_id@), nav_id@, retry_from_ms, now_ms),
                )
            },
    {
        if !has_nav_scope(db_id, note_id, nav_id) {
            return write_nothing(self);
        }
        proof {
            lemma_opened_is_named(stored_view(self.draft), db_id@, note_id@);
        }
        let mut d = load_note_draft(self.draft, db_id, note_id);
        mark_nav_sync_failed(&mut d, nav_id, retry_from_ms, now_ms);
        write_change(self.index, db_id, note_id, d)
    }

    /// Notes that the server has the title. Without names nothing is written.
    pub fn mark_title_synced(self, db_id: &str, note_id: &str, synced_ms: i64, now_ms: i64) -> (w:
        DraftWrite)
        requires
            self.wf(),
        ensures
            if is_blank(db_id@) || is_blank(note_id@) {
                nothing_written(self, w)
            } else {
                sync_written(
                    self,
                    w,
                    db_id@,
                    note_id@,
                    title_synced(self.open(db_id@, note_id@), synced_ms, now_ms),
                )
            },
    {
        if !has_note_scope(db_id, note_id) {
            return write_nothing(self);
        }
        proof {
            lemma_opened_is_named(stored_view(self.draft), db_id@, note_id@);
        }
        let mut d = load_note_draft(self.draft, db_id, note_id);
        let was_synced = is_note_fully_synced(&d);
        mark_title_synced(&mut d, synced_ms, now_ms);
        write_sync(self.index, was_synced, db_id, note_id, d)
    }

    /// Notes that the server has the text of a row. Without names nothing is written.
    pub fn mark_nav_synced(
        self,
        db_id: &str,
        note_id: &str,
        nav_id: &str,
        synced_ms: i64,
        now_ms: i64,
    ) -> (w: DraftWrite)
        requires
            self.wf(),
        ensures
            if is_blank(db_id@) || is_blank(note_id@) || is_blank(nav_id@) {
                nothing_written(self, w)
            } else {
                sync_written(
                    self,
                    w,
                    db_id@,
                    note_id@,
                    nav_synced(self.open(db_id@, note_id@), nav_id@, synced_ms, now_ms),
                )
            },
    {
        if !has_nav_scope(db_id, note_id, nav_id) {
            return write_nothing(self);
        }
        proof {
            lemma_opened_is_named(stored_view(self.draft), db_id@, note_id@);
        }
        let mut d = load_note_draft(self.draft, db_id, note_id);
        let was_synced = is_note_fully_synced(&d);
        mark_nav_synced(&mut d, nav_id, synced_ms, now_ms);
        write_sync(self.index, was_synced, db_id, note_id, d)
    }

    /// Notes that the server has the place and state of a row. Without names nothing is
    /// written.
    pub fn mark_nav_meta_synced(self, db_id: &str, note_id: &str, nav_id: &str, now_ms: i64) -> (w:
        DraftWrite)
        requires
            self.wf(),
        ensures
            if is_blank(db_id@) || is_blank(note_id@) || is_blank(nav_id@) {
                nothing_written(self, w)
            } else {
                sync_written(
                    self,
                    w,
                    db_id@,
                    note_id@,
                    meta_synced(self.open(db_id@, note_id@), nav_id@, now_ms),
                )
            },
    {
        if !has_nav_scope(db_id, note_id, nav_id) {
            return write_nothing(self);
        }
        proof {
            lemma_opened_is_named(stored_view(self.draft), db_id@, note_id@);
        }
        let mut d = load_note_draft(self.draft, db_id, note_id);
        let was_synced = is_note_fully_synced(&d);
        mark_nav_meta_synced(&mut d, nav_id, now_ms);
        write_sync(self.index, was_synced, db_id, note_id, d)
    }
}

// ---- laws ----

/// What is stored is what was written, in a store that is read again under the name under
/// which the draft was written.
pub open spec fn reads_back(w: DraftWrite, s: DraftStore) -> bool {
    &&& s.index@ == w.index@
    &&& stored_view(s.draft) == stored_view(w.write)
}

/// A text that is changed and then sent leaves nothing stored of a note without other
/// changes, and takes the note out of the index.
pub proof fn law_sent_text_leaves_nothing_stored(
    s: DraftStore,
    db: Seq<char>,
    note: Seq<char>,
    nav: Seq<char>,
    content: Seq<char>,
    now: i64,
    synced_ms: i64,
    later_ms: i64,
    changed: DraftWrite,
    mid: DraftStore,
    sent: DraftWrite,
)
    requires
        s.wf(),
        mid.wf(),
        !is_blank(db) && !is_blank(note) && !is_blank(nav),
        fully_synced(s.open(db, note)),
        is_stored_as(s.open(db, note), db, note),
        change_written(s, changed, db, note, nav_touched(s.open(db, note), nav, content, now)),
        reads_back(changed, mid),
        sync_written(
            mid,
            sent,
            db,
            note,
            nav_synced(mid.open(db, note), nav, synced_ms, later_ms),
        ),
    ensures
        sent.remove,
        names(sent.index@) == names(s.index@).remove(index_key(db, note)),
{
    lemma_opened_is_named(stored_view(s.draft), db, note);
    assert(mid.open(db, note) == nav_touched(s.open(db, note), nav, content, now));
    law_sent_text_leaves_a_clean_draft(
        s.open(db, note),
        nav,
        content,
        now,
        synced_ms,
        later_ms,
    );
    assert(names(sent.index@) =~= names(s.index@).remove(index_key(db, note)));
}

/// A title that is changed and then sent, as of the change or later, leaves nothing stored of
/// a note without other changes, and takes the note out of the index.
pub proof fn law_sent_title_leaves_nothing_stored(
    s: DraftStore,
    db: Seq<char>,
    note: Seq<char>,
    title: Seq<char>,
    now: i64,
    synced_ms: i64,
    later_ms: i64,
    changed: DraftWrite,
    mid: DraftStore,
    sent: DraftWrite,
)
    requires
        s.wf(),
        mid.wf(),
        !is_blank(db) && !is_blank(note),
        fully_synced(s.open(db, note)),
        is_stored_as(s.open(db, note), db, note),
        now <= later(title_synced_at(s.open(db, note)), synced_ms),
        change_written(s, changed, db, note, title_touched(s.open(db, note), title, now)),
        reads_back(changed, mid),
        sync_written(
            mid,
            sent,
            db,
            note,
            title_synced(mid.open(db, note), synced_ms, later_ms),
        ),
    ensures
        sent.remove,
        names(sent.index@) == names(s.index@).remove(index_key(db, note)),
{
    lemma_opened_is_named(stored_view(s.draft), db, note);
    assert(mid.open(db, note) == title_touched(s.open(db, note), title, now));
    law_sent_title_leaves_a_clean_draft(s.open(db, note), title, now, synced_ms, later_ms);
    assert(names(sent.index@) =~= names(s.index@).remove(index_key(db, note)));
}

} // verus!
