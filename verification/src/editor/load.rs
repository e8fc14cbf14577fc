//! Loading the outline of a note: from the server, or from what was kept of it.

use crate::text::is_blank_str;
use vstd::prelude::*;

verus! {

use crate::models::opt_view;
use crate::text::is_blank;

/// What there is to show about loading.
#[derive(Debug, PartialEq, Eq)]
pub struct LoadState {
    pub loading: bool,
    pub error: Option<String>,
    /// The server cannot be reached.
    pub offline: bool,
    /// The server cannot be reached, and nothing was kept of the note.
    pub offline_missing_snapshot: bool,
    /// The note of which a row is to be marked once it is opened.
    pub pending_focus_flash_note_id: Option<String>,
}

/// What a load state holds.
#[verifier::ext_equal]
pub struct LoadView {
    pub loading: bool,
    pub error: Option<Seq<char>>,
    pub offline: bool,
    pub offline_missing_snapshot: bool,
    pub pending_focus_flash_note_id: Option<Seq<char>>,
}

impl View for LoadState {
    type V = LoadView;

    open spec fn view(&self) -> LoadView {
        LoadView {
            loading: self.loading,
            error: opt_view(self.error),
            offline: self.offline,
            offline_missing_snapshot: self.offline_missing_snapshot,
            pending_focus_flash_note_id: opt_view(self.pending_focus_flash_note_id),
        }
    }
}

/// What to do next about loading.
#[derive(Debug, Clone, Copy, PartialEq, Eq, Structural)]
pub enum LoadAction {
    /// There is no note: show no rows.
    Clear,
    /// Show what was kept of the note, and make a first row where it has none.
    ShowSnapshot,
    /// Show what was kept of the note.
    ShowSnapshotAsItIs,
    /// Nothing was kept of the note: show no rows.
    ShowNothing,
    /// Ask the server.
    Fetch,
    /// Leave the rows as they are.
    Keep,
}

/// A load state once the server turned out not to be reachable.
pub open spec fn gone_offline(v: LoadView, has_snapshot: bool) -> LoadView {
    LoadView {
        loading: false,
        error: None,
        offline: true,
        offline_missing_snapshot: !has_snapshot,
        ..v
    }
}

/// A load state once a note that has a name is to be loaded.
pub open spec fn begun(v: LoadView, note_id: Seq<char>, online: bool, has_snapshot: bool) -> LoadView {
    let named = LoadView { pending_focus_flash_note_id: Some(note_id), ..v };
    if online {
        LoadView { loading: true, error: None, ..named }
    } else {
        gone_offline(named, has_snapshot)
    }
}

/// A load state once the server answered.
pub open spec fn answered(v: LoadView) -> LoadView {
    LoadView { loading: false, offline: false, offline_missing_snapshot: false, ..v }
}

/// A load state once the server did not answer as it should.
pub open spec fn refused(v: LoadView, online: bool, has_snapshot: bool, message: Seq<char>) -> LoadView {
    if online {
        LoadView { error: Some(message), ..answered(v) }
    } else {
        gone_offline(v, has_snapshot)
    }
}

impl LoadState {
    /// Nothing is loaded.
    pub fn new() -> (r: Self)
        ensures
            r@ == (LoadView {
                loading: false,
                error: None,
                offline: false,
                offline_missing_snapshot: false,
                pending_focus_flash_note_id: None,
            }),
    {
        LoadState {
            loading: false,
            error: None,
            offline: false,
            offline_missing_snapshot: false,
            pending_focus_flash_note_id: None,
        }
    }

    /// Starts to load a note.
    pub fn begin(&mut self, note_id: &str, online: bool, has_snapshot: bool) -> (r: LoadAction)
        ensures
            ({
                let v = old(self)@;
                if is_blank(note_id@) {
                    &&& r == LoadAction::Clear
                    &&& final(self)@ == (LoadView {
                        offline: false,
                        offline_missing_snapshot: false,
                        pending_focus_flash_note_id: None,
                        ..v
                    })
                } else {
                    &&& r == if online {
                        LoadAction::Fetch
                    } else if has_snapshot {
                        LoadAction::ShowSnapshot
                    } else {
                        LoadAction::ShowNothing
                    }
                    &&& final(self)@ == begun(v, note_id@, online, has_snapshot)
                }
            }),
    {
        if is_blank_str(note_id) {
            self.pending_focus_flash_note_id = None;
            self.offline = false;
            self.offline_missing_snapshot = false;
            return LoadAction::Clear;
        }
        self.pending_focus_flash_note_id = Some(note_id.to_string());
        self.error = None;
        if online {
            self.loading = true;
            return LoadAction::Fetch;
        }
        self.loading = false;
        self.offline = true;
        self.offline_missing_snapshot = !has_snapshot;
        if has_snapshot {
            LoadAction::ShowSnapshot
        } else {
            LoadAction::ShowNothing
        }
    }

    /// The server answered.
    pub fn fetched(&mut self)
        ensures
            final(self)@ == answered(old(self)@),
    {
        self.offline = false;
        self.offline_missing_snapshot = false;
        self.loading = false;
    }

    /// The server did not answer as it should. `online` tells whether it can be reached.
    pub fn failed(&mut self, online: bool, has_snapshot: bool, message: &str) -> (r: LoadAction)
        ensures
            final(self)@ == refused(old(self)@, online, has_snapshot, message@),
            r == if online {
                LoadAction::Keep
            } else if has_snapshot {
                LoadAction::ShowSnapshotAsItIs
            } else {
                LoadAction::ShowNothing
            },
    {
        self.loading = false;
        if online {
            self.offline = false;
            self.offline_missing_snapshot = false;
            self.error = Some(message.to_string());
            return LoadAction::Keep;
        }
        self.error = None;
        self.offline = true;
        self.offline_missing_snapshot = !has_snapshot;
        if has_snapshot {
            LoadAction::ShowSnapshotAsItIs
        } else {
            LoadAction::ShowNothing
        }
    }

    /// Which row to mark: the one that was opened to come back to, if the note is the one
    /// that waits for it and the row is not marked already.
    pub fn row_to_flash(
        &mut self,
        focused_nav_id: Option<&str>,
        current_note_id: &str,
        restored_nav_id: Option<&str>,
    ) -> (r: Option<String>)
        ensures
            ({
                let v = old(self)@;
                match restored_nav_id {
                    Some(nav) if v.pending_focus_flash_note_id == Some(current_note_id@) => {
                        &&& final(self)@ == (LoadView { pending_focus_flash_note_id: None, ..v })
                        &&& opt_view(r) == if focused_nav_id matches Some(f) && f@ == nav@ {
                            None
                        } else {
                            Some(nav@)
                        }
                    },
                    _ => r is None && final(self)@ == v,
                }
            }),
    {
        if !crate::text::opt_str_eq(&self.pending_focus_flash_note_id, current_note_id) {
            return None;
        }
        match restored_nav_id {
            None => None,
            Some(nav) => {
                self.pending_focus_flash_note_id = None;
                if should_skip_flash_when_same_row_already_highlighted(focused_nav_id, nav) {
                    None
                } else {
                    Some(nav.to_string())
                }
            },
        }
    }

    /// What to tell while the server cannot be reached.
    pub fn offline_notice(&self) -> (r: &'static str)
        ensures
            r@ == if self@.offline_missing_snapshot {
                OFFLINE_MISSING_NOTICE@
            } else {
                OFFLINE_NOTICE@
            },
    {
        if self.offline_missing_snapshot {
            OFFLINE_MISSING_NOTICE
        } else {
            OFFLINE_NOTICE
        }
    }
}

/// Told when the server cannot be reached and nothing was kept of a note.
pub const OFFLINE_MISSING_NOTICE: &'static str =
    "Offline: this note is not cached yet, so its outline cannot be shown. Reconnect once to cache it.";

/// Told when the server cannot be reached and what was kept of a note is shown.
pub const OFFLINE_NOTICE: &'static str =
    "Offline: showing cached snapshot. You can keep editing; changes are saved locally and will sync when online.";

/// Whether a row is marked already.
pub fn should_skip_flash_when_same_row_already_highlighted(
    current_focused_nav_id: Option<&str>,
    restored_nav_id: &str,
) -> (r: bool)
    ensures
        r == (current_focused_nav_id matches Some(f) && f@ == restored_nav_id@),
{
    match current_focused_nav_id {
        Some(f) => crate::text::str_eq(f, restored_nav_id),
        None => false,
    }
}

/// Whether a row may be opened when a note is loaded: not if that is not wanted, not if the
/// note is new and its title is to be chosen, and not if its title is being edited.
pub fn may_focus_row(
    suppressed: bool,
    title_to_choose: Option<&str>,
    title_owner: Option<&str>,
    note_id: &str,
) -> (r: bool)
    ensures
        r == (!suppressed && !(title_to_choose matches Some(x) && x@ == note_id@) && !(
        title_owner matches Some(x) && x@ == note_id@)),
{
    if suppressed {
        return false;
    }
    if let Some(x) = title_to_choose {
        if crate::text::str_eq(x, note_id) {
            return false;
        }
    }
    if let Some(x) = title_owner {
        if crate::text::str_eq(x, note_id) {
            return false;
        }
    }
    true
}

// ---- marking a row ----

/// How often it is looked whether a row can be seen before it is given up.
pub const FLASH_ATTEMPTS: u32 = 240;

/// What to do about a row that is to be marked.
#[derive(Debug, Clone, Copy, PartialEq, Eq, Structural)]
pub enum FlashStep {
    Stop,
    /// Look again later.
    Wait,
    /// Mark the row on the frame after the next.
    Mark,
}

/// What to do about a row that is to be marked, on an attempt.
pub fn flash_step(nav_id: &str, attempt: u32, can_see: bool) -> (r: FlashStep)
    ensures
        r == (if is_blank(nav_id@) || attempt > FLASH_ATTEMPTS {
            FlashStep::Stop
        } else if can_see {
            FlashStep::Mark
        } else {
            FlashStep::Wait
        }),
{
    if is_blank_str(nav_id) || attempt > FLASH_ATTEMPTS {
        FlashStep::Stop
    } else if can_see {
        FlashStep::Mark
    } else {
        FlashStep::Wait
    }
}

/// Whether a place of the caret can be kept: that takes the names of all it is in.
pub fn can_keep_cursor(db_id: &str, note_id: &str, nav_id: &str) -> (r: bool)
    ensures
        r == (!is_blank(db_id@) && !is_blank(note_id@) && !is_blank(nav_id@)),
{
    !is_blank_str(db_id) && !is_blank_str(note_id) && !is_blank_str(nav_id)
}

// ---- laws ----

/// Loading that has begun ends, however the server answers. An error is told exactly if the
/// server can be reached and refused, and never together with a notice that it cannot be.
pub proof fn law_loading_ends(
    v: LoadView,
    note_id: Seq<char>,
    online: bool,
    has_snapshot: bool,
    message: Seq<char>,
)
    ensures
        ({
            let asked = begun(v, note_id, true, has_snapshot);
            let no = refused(asked, online, has_snapshot, message);
            &&& asked.loading && asked.error is None
            &&& !begun(v, note_id, false, has_snapshot).loading
            &&& !answered(asked).loading && answered(asked).error is None && !answered(asked).offline
            &&& !no.loading
            &&& no.error is Some <==> online
            &&& no.offline <==> !online
            &&& no.offline_missing_snapshot <==> !online && !has_snapshot
        }),
{
}

/// A note that is to be loaded is the one of which a row is to be marked, whether or not
/// the server can be reached, and it stays so whatever the server says. Without the server
/// no error is told, and it is told whether anything was kept of the note.
pub proof fn law_loading_keeps_the_note_to_mark(
    v: LoadView,
    note_id: Seq<char>,
    online: bool,
    has_snapshot: bool,
    message: Seq<char>,
)
    ensures
        ({
            let b = begun(v, note_id, online, has_snapshot);
            let no = refused(b, online, has_snapshot, message);
            &&& b.pending_focus_flash_note_id == Some(note_id)
            &&& answered(b).pending_focus_flash_note_id == Some(note_id)
            &&& no.pending_focus_flash_note_id == Some(note_id)
            &&& b.loading == online
            &&& b.error is None
            &&& online ==> b.offline == v.offline && no.error == Some(message)
            &&& !online ==> b.offline && b.offline_missing_snapshot == !has_snapshot
                && no.error is None
        }),
{
}

} // verus!
