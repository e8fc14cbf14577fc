//! Drafts of notes: what was changed locally, what of it the server has, and when to try
//! again.

use crate::models::{clone_opt, Nav};
use crate::text::{is_blank_str, str_eq, str_less};
use vstd::prelude::*;

verus! {

use crate::models::{opt_view, NavView};
use crate::strset::ascending;
use crate::text::{
    is_blank, lemma_lex_irreflexive, lemma_lex_total, lemma_lex_transitive, lex_less,
};

// ---- the data ----

/// A changed field.
#[derive(Debug, PartialEq, Eq)]
pub struct FieldDraft {
    pub value: String,
    pub updated_ms: i64,
    pub synced_ms: i64,
    pub retry_count: u32,
    pub next_retry_ms: i64,
}

/// What a `FieldDraft` holds.
#[verifier::ext_equal]
pub struct FieldView {
    pub value: Seq<char>,
    pub updated_ms: i64,
    pub synced_ms: i64,
    pub retry_count: u32,
    pub next_retry_ms: i64,
}

impl View for FieldDraft {
    type V = FieldView;

    open spec fn view(&self) -> FieldView {
        FieldView {
            value: self.value@,
            updated_ms: self.updated_ms,
            synced_ms: self.synced_ms,
            retry_count: self.retry_count,
            next_retry_ms: self.next_retry_ms,
        }
    }
}

/// A field that was never changed.
pub open spec fn field_default() -> FieldView {
    FieldView {
        value: Seq::empty(),
        updated_ms: 0,
        synced_ms: 0,
        retry_count: 0,
        next_retry_ms: 0,
    }
}

impl Default for FieldDraft {
    fn default() -> (r: Self)
        ensures
            r@ == field_default(),
    {
        let r = FieldDraft {
            value: String::new(),
            updated_ms: 0,
            synced_ms: 0,
            retry_count: 0,
            next_retry_ms: 0,
        };
        assert(r@.value =~= Seq::<char>::empty());
        r
    }
}

/// The changed place and state of a row.
#[derive(Debug, PartialEq, Eq)]
pub struct NavMetaDraft {
    pub parid: String,
    pub same_deep_order: i32,
    pub is_display: bool,
    pub is_delete: bool,
    pub properties: Option<String>,
}

/// What a `NavMetaDraft` holds.
#[verifier::ext_equal]
pub struct NavMetaView {
    pub parid: Seq<char>,
    pub same_deep_order: int,
    pub is_display: bool,
    pub is_delete: bool,
    pub properties: Option<Seq<char>>,
}

impl View for NavMetaDraft {
    type V = NavMetaView;

    open spec fn view(&self) -> NavMetaView {
        NavMetaView {
            parid: self.parid@,
            same_deep_order: self.same_deep_order as int,
            is_display: self.is_display,
            is_delete: self.is_delete,
            properties: opt_view(self.properties),
        }
    }
}

impl Default for NavMetaDraft {
    fn default() -> (r: Self)
        ensures
            r@ == (NavMetaView {
                parid: Seq::empty(),
                same_deep_order: 0,
                is_display: false,
                is_delete: false,
                properties: None,
            }),
    {
        let r = NavMetaDraft {
            parid: String::new(),
            same_deep_order: 0,
            is_display: false,
            is_delete: false,
            properties: None,
        };
        assert(r@.parid =~= Seq::<char>::empty());
        r
    }
}

impl Clone for NavMetaDraft {
    fn clone(&self) -> (r: Self)
        ensures
            r == *self,
    {
        NavMetaDraft {
            parid: self.parid.clone(),
            same_deep_order: self.same_deep_order,
            is_display: self.is_display,
            is_delete: self.is_delete,
            properties: clone_opt(&self.properties),
        }
    }
}

/// The local changes of a row: its text, and its place and state. The two go to the
/// server on their own.
#[derive(Debug, PartialEq, Eq)]
pub struct NavDraftState {
    pub content: String,
    pub meta: Option<NavMetaDraft>,
    pub updated_ms: i64,
    pub synced_ms: i64,
    /// Whether the text has changes that the server does not have.
    pub content_dirty: bool,
    pub retry_count: u32,
    pub next_retry_ms: i64,
}

/// What a `NavDraftState` holds.
#[verifier::ext_equal]
pub struct NavStateView {
    pub content: Seq<char>,
    pub meta: Option<NavMetaView>,
    pub updated_ms: i64,
    pub synced_ms: i64,
    pub content_dirty: bool,
    pub retry_count: u32,
    pub next_retry_ms: i64,
}

/// What an optional `NavMetaDraft` holds.
pub open spec fn meta_view(m: Option<NavMetaDraft>) -> Option<NavMetaView> {
    match m {
        Some(x) => Some(x@),
        None => None,
    }
}

impl View for NavDraftState {
    type V = NavStateView;

    open spec fn view(&self) -> NavStateView {
        NavStateView {
            content: self.content@,
            meta: meta_view(self.meta),
            updated_ms: self.updated_ms,
            synced_ms: self.synced_ms,
            content_dirty: self.content_dirty,
            retry_count: self.retry_count,
            next_retry_ms: self.next_retry_ms,
        }
    }
}

/// The state of a row without local changes.
pub open spec fn state_default() -> NavStateView {
    NavStateView {
        content: Seq::empty(),
        meta: None,
        updated_ms: 0,
        synced_ms: 0,
        content_dirty: false,
        retry_count: 0,
        next_retry_ms: 0,
    }
}

impl Default for NavDraftState {
    fn default() -> (r: Self)
        ensures
            r@ == state_default(),
    {
        let r = NavDraftState {
            content: String::new(),
            meta: None,
            updated_ms: 0,
            synced_ms: 0,
            content_dirty: false,
            retry_count: 0,
            next_retry_ms: 0,
        };
        assert(r@.content =~= Seq::<char>::empty());
        r
    }
}

/// A row's id and its local changes.
#[derive(Debug, PartialEq, Eq)]
pub struct NavEntry {
    pub id: String,
    pub state: NavDraftState,
}

/// The form of drafts that is written.
pub const NOTE_DRAFT_SCHEMA_CURRENT: u32 = 20260217;

/// The local changes of a note. Its rows stand in ascending order of their ids.
#[derive(Debug, PartialEq, Eq)]
pub struct NoteDraft {
    pub schema_version: u32,
    pub db_id: String,
    pub note_id: String,
    pub updated_ms: i64,
    pub title: Option<FieldDraft>,
    pub nav_state: Vec<NavEntry>,
}

/// The changes of rows, by id.
pub open spec fn entry_views(es: Seq<NavEntry>) -> Seq<(Seq<char>, NavStateView)> {
    Seq::new(es.len(), |i: int| (es[i].id@, es[i].state@))
}

/// The ids of rows with changes.
pub open spec fn entry_ids(es: Seq<(Seq<char>, NavStateView)>) -> Seq<Seq<char>> {
    Seq::new(es.len(), |i: int| es[i].0)
}

/// What a `NoteDraft` holds.
#[verifier::ext_equal]
pub struct DraftView {
    pub schema_version: u32,
    pub db_id: Seq<char>,
    pub note_id: Seq<char>,
    pub updated_ms: i64,
    pub title: Option<FieldView>,
    pub nav_state: Seq<(Seq<char>, NavStateView)>,
}

/// What an optional `FieldDraft` holds.
pub open spec fn field_view(f: Option<FieldDraft>) -> Option<FieldView> {
    match f {
        Some(x) => Some(x@),
        None => None,
    }
}

impl View for NoteDraft {
    type V = DraftView;

    open spec fn view(&self) -> DraftView {
        DraftView {
            schema_version: self.schema_version,
            db_id: self.db_id@,
            note_id: self.note_id@,
            updated_ms: self.updated_ms,
            title: field_view(self.title),
            nav_state: entry_views(self.nav_state@),
        }
    }
}

impl DraftView {
    /// Whether the rows stand in ascending order of their ids, none twice.
    pub open spec fn wf(self) -> bool {
        ascending(entry_ids(self.nav_state))
    }
}

/// A draft without changes.
pub open spec fn draft_default() -> DraftView {
    DraftView {
        schema_version: NOTE_DRAFT_SCHEMA_CURRENT,
        db_id: Seq::empty(),
        note_id: Seq::empty(),
        updated_ms: 0,
        title: None,
        nav_state: Seq::empty(),
    }
}

impl Default for NoteDraft {
    fn default() -> (r: Self)
        ensures
            r@ == draft_default(),
            r@.wf(),
    {
        let r = NoteDraft {
            schema_version: NOTE_DRAFT_SCHEMA_CURRENT,
            db_id: String::new(),
            note_id: String::new(),
            updated_ms: 0,
            title: None,
            nav_state: Vec::new(),
        };
        assert(r@.db_id =~= Seq::<char>::empty());
        assert(r@.note_id =~= Seq::<char>::empty());
        assert(r@.nav_state =~= Seq::<(Seq<char>, NavStateView)>::empty());
        r
    }
}

// ---- the rows of a draft ----

/// The changes of a row.
pub open spec fn lookup(es: Seq<(Seq<char>, NavStateView)>, id: Seq<char>) -> Option<NavStateView>
    decreases es.len(),
{
    if es.len() == 0 {
        None
    } else if es.last().0 == id {
        Some(es.last().1)
    } else {
        lookup(es.drop_last(), id)
    }
}

/// The changes of a row, or none.
pub open spec fn state_of(es: Seq<(Seq<char>, NavStateView)>, id: Seq<char>) -> NavStateView {
    match lookup(es, id) {
        Some(s) => s,
        None => state_default(),
    }
}

/// The rows with the changes of one of them put in.
pub open spec fn put_state(
    es: Seq<(Seq<char>, NavStateView)>,
    id: Seq<char>,
    s: NavStateView,
) -> Seq<(Seq<char>, NavStateView)>
    decreases es.len(),
{
    if es.len() == 0 {
        seq![(id, s)]
    } else if es.last().0 == id {
        es.drop_last().push((id, s))
    } else if lex_less(es.last().0, id) {
        es.push((id, s))
    } else {
        put_state(es.drop_last(), id, s).push(es.last())
    }
}

/// What is put in is found, what else there was too, and the order is kept.
pub proof fn law_put_then_lookup(
    es: Seq<(Seq<char>, NavStateView)>,
    id: Seq<char>,
    s: NavStateView,
    other: Seq<char>,
)
    requires
        ascending(entry_ids(es)),
    ensures
        ascending(entry_ids(put_state(es, id, s))),
        lookup(put_state(es, id, s), id) == Some(s),
        other != id ==> lookup(put_state(es, id, s), other) == lookup(es, other),
    decreases es.len(),
{
    let r = put_state(es, id, s);
    let ids = entry_ids(es);
    let rids = entry_ids(r);
    if es.len() == 0 {
        assert(r.drop_last() =~= es);
    } else {
        let p = es.drop_last();
        let pids = entry_ids(p);
        assert(pids =~= ids.drop_last());
        assert forall|i: int, j: int| 0 <= i < j < pids.len() implies lex_less(
            pids[i],
            pids[j],
        ) by {
            assert(lex_less(ids[i], ids[j]));
        }
        law_put_then_lookup(p, id, s, other);
        if es.last().0 == id {
            assert(r.drop_last() =~= p);
            assert(rids =~= ids);
        } else if lex_less(es.last().0, id) {
            assert(r.drop_last() =~= es);
            assert forall|i: int, j: int| 0 <= i < j < rids.len() implies lex_less(
                rids[i],
                rids[j],
            ) by {
                if j == es.len() {
                    if i < es.len() - 1 {
                        assert(lex_less(ids[i], ids[es.len() - 1]));
                        lemma_lex_transitive(ids[i], es.last().0, id);
                    }
                } else {
                    assert(lex_less(ids[i], ids[j]));
                }
            }
        } else {
            let q = put_state(p, id, s);
            let qids = entry_ids(q);
            assert(r.drop_last() =~= q);
            lemma_lex_total(id, es.last().0);
            lemma_put_ids(p, id, s);
            assert forall|i: int, j: int| 0 <= i < j < rids.len() implies lex_less(
                rids[i],
                rids[j],
            ) by {
                if j == q.len() {
                    assert(qids[i] == rids[i]);
                    assert(qids.contains(qids[i]));
                    if qids[i] != id {
                        assert(pids.contains(qids[i]));
                        let k = choose|k: int| 0 <= k < pids.len() && pids[k] == qids[i];
                        assert(lex_less(ids[k], ids[es.len() - 1]));
                    }
                } else {
                    assert(lex_less(qids[i], qids[j]));
                }
            }
            lemma_lex_irreflexive(id);
        }
    }
}

/// The ids after a row was put in are those before and its own.
proof fn lemma_put_ids(es: Seq<(Seq<char>, NavStateView)>, id: Seq<char>, s: NavStateView)
    ensures
        forall|x: Seq<char>| #[trigger]
            entry_ids(put_state(es, id, s)).contains(x) ==> x == id || entry_ids(es).contains(x),
    decreases es.len(),
{
    let r = put_state(es, id, s);
    assert forall|x: Seq<char>| #[trigger] entry_ids(r).contains(x) implies x == id || entry_ids(
        es,
    ).contains(x) by {
        let i = choose|i: int| 0 <= i < entry_ids(r).len() && entry_ids(r)[i] == x;
        if es.len() > 0 {
            let p = es.drop_last();
            lemma_put_ids(p, id, s);
            if es.last().0 == id {
                if i < p.len() {
                    assert(entry_ids(es)[i] == x);
                }
            } else if lex_less(es.last().0, id) {
                if i < es.len() {
                    assert(entry_ids(es)[i] == x);
                }
            } else {
                let q = put_state(p, id, s);
                if i < q.len() {
                    assert(entry_ids(q)[i] == x);
                    assert(entry_ids(q).contains(x));
                    if x != id {
                        let k = choose|k: int| 0 <= k < entry_ids(p).len() && entry_ids(p)[k] == x;
                        assert(entry_ids(es)[k] == x);
                    }
                } else {
                    assert(entry_ids(es)[es.len() - 1] == x);
                }
            }
        }
    }
}

/// The changes of a row are those that stand with its id.
pub proof fn lemma_lookup_at(es: Seq<(Seq<char>, NavStateView)>, i: int)
    requires
        ascending(entry_ids(es)),
        0 <= i < es.len(),
    ensures
        lookup(es, es[i].0) == Some(es[i].1),
    decreases es.len(),
{
    let ids = entry_ids(es);
    if i < es.len() - 1 {
        assert(lex_less(ids[i], ids[es.len() - 1]));
        lemma_lex_irreflexive(ids[i]);
        let p = es.drop_last();
        assert forall|a: int, b: int| 0 <= a < b < p.len() implies lex_less(
            entry_ids(p)[a],
            entry_ids(p)[b],
        ) by {
            assert(lex_less(ids[a], ids[b]));
        }
        lemma_lookup_at(p, i);
    }
}

proof fn lemma_lookup_none(es: Seq<(Seq<char>, NavStateView)>, id: Seq<char>)
    requires
        forall|i: int| 0 <= i < es.len() ==> (#[trigger] es[i]).0 != id,
    ensures
        lookup(es, id) is None,
    decreases es.len(),
{
    if es.len() > 0 {
        let p = es.drop_last();
        assert forall|i: int| 0 <= i < p.len() implies (#[trigger] p[i]).0 != id by {
            assert(p[i] == es[i]);
        }
        lemma_lookup_none(p, id);
        assert(es[es.len() - 1].0 != id);
    }
}

/// Finds the changes of a row.
pub fn find_state(es: &[NavEntry], id: &str) -> (r: Option<usize>)
    requires
        ascending(entry_ids(entry_views(es@))),
    ensures
        match r {
            Some(i) => i < es@.len() && es@[i as int].id@ == id@ && lookup(entry_views(es@), id@)
                == Some(es@[i as int].state@),
            None => lookup(entry_views(es@), id@) is None,
        },
{
    let ghost vs = entry_views(es@);
    let mut i: usize = 0;
    while i < es.len()
        invariant
            i <= es@.len(),
            vs == entry_views(es@),
            ascending(entry_ids(vs)),
            forall|j: int| 0 <= j < i ==> (#[trigger] vs[j]).0 != id@,
        decreases es@.len() - i,
    {
        assert(vs[i as int] == (es@[i as int].id@, es@[i as int].state@));
        if str_eq(es[i].id.as_str(), id) {
            proof {
                lemma_lookup_at(vs, i as int);
            }
            return Some(i);
        }
        i = i + 1;
    }
    proof {
        lemma_lookup_none(vs, id@);
    }
    None
}

/// Takes the changes of a row out to change them, or fresh ones.
fn take_state(es: &mut Vec<NavEntry>, id: &str) -> (r: NavDraftState)
    requires
        ascending(entry_ids(entry_views(old(es)@))),
    ensures
        r@ == state_of(entry_views(old(es)@), id@),
        ascending(entry_ids(entry_views(final(es)@))),
        forall|s: NavStateView| #[trigger]
            put_state(entry_views(final(es)@), id@, s) == put_state(
                entry_views(old(es)@),
                id@,
                s,
            ),
        forall|j: int| 0 <= j < final(es)@.len() ==> (#[trigger] final(es)@[j]).id@ != id@,
{
    let ghost vs = entry_views(es@);
    match find_state(es.as_slice(), id) {
        None => {
            proof {
                assert forall|j: int| 0 <= j < es@.len() implies (#[trigger] es@[j]).id@ != id@ by {
                    assert(vs[j] == (es@[j].id@, es@[j].state@));
                    lemma_lookup_at(vs, j);
                }
            }
            NavDraftState::default()
        },
        Some(i) => {
            let e = es.remove(i);
            proof {
                let ws = entry_views(es@);
                assert(ws =~= vs.remove(i as int));
                assert forall|a: int, b: int| 0 <= a < b < ws.len() implies lex_less(
                    entry_ids(ws)[a],
                    entry_ids(ws)[b],
                ) by {
                    let a2 = if a < i {
                        a
                    } else {
                        a + 1
                    };
                    let b2 = if b < i {
                        b
                    } else {
                        b + 1
                    };
                    assert(lex_less(entry_ids(vs)[a2], entry_ids(vs)[b2]));
                }
                assert forall|s: NavStateView| #[trigger] put_state(ws, id@, s) == put_state(
                    vs,
                    id@,
                    s,
                ) by {
                    lemma_put_over(vs, i as int, s);
                }
                assert forall|j: int| 0 <= j < es@.len() implies (#[trigger] es@[j]).id@ != id@ by {
                    let j2 = if j < i {
                        j
                    } else {
                        j + 1
                    };
                    assert(ws[j] == vs[j2]);
                    assert(ws[j].0 == es@[j].id@);
                    if j2 < i {
                        assert(lex_less(entry_ids(vs)[j2], entry_ids(vs)[i as int]));
                    } else {
                        assert(lex_less(entry_ids(vs)[i as int], entry_ids(vs)[j2]));
                    }
                    lemma_lex_irreflexive(id@);
                }
            }
            e.state
        },
    }
}

/// Putting changes in over others is the same as taking the others out first.
proof fn lemma_put_over(es: Seq<(Seq<char>, NavStateView)>, i: int, s: NavStateView)
    requires
        ascending(entry_ids(es)),
        0 <= i < es.len(),
    ensures
        put_state(es.remove(i), es[i].0, s) == put_state(es, es[i].0, s),
    decreases es.len(),
{
    let id = es[i].0;
    let ids = entry_ids(es);
    let p = es.drop_last();
    if i == es.len() - 1 {
        assert(es.remove(i) =~= p);
        if p.len() > 0 {
            assert(lex_less(ids[p.len() - 1], ids[i]));
            lemma_lex_irreflexive(id);
        }
        assert(put_state(p, id, s) =~= p.push((id, s)));
    } else {
        assert(lex_less(ids[i], ids[es.len() - 1]));
        lemma_lex_irreflexive(id);
        if lex_less(es.last().0, id) {
            lemma_lex_transitive(id, es.last().0, id);
        }
        assert forall|a: int, b: int| 0 <= a < b < p.len() implies lex_less(
            entry_ids(p)[a],
            entry_ids(p)[b],
        ) by {
            assert(lex_less(ids[a], ids[b]));
        }
        lemma_put_over(p, i, s);
        assert(es.remove(i).drop_last() =~= p.remove(i));
        assert(es.remove(i).last() == es.last());
        assert(put_state(es.remove(i), id, s) =~= put_state(p.remove(i), id, s).push(es.last()));
    }
}

/// Puts in the changes of a row that has none.
fn put_new_state(es: &mut Vec<NavEntry>, id: &str, state: NavDraftState)
    requires
        forall|j: int| 0 <= j < old(es)@.len() ==> (#[trigger] old(es)@[j]).id@ != id@,
    ensures
        entry_views(final(es)@) == put_state(entry_views(old(es)@), id@, state@),
{
    let ghost vs = entry_views(es@);
    let mut j: usize = es.len();
    proof {
        assert(vs.take(j as int) =~= vs);
        assert(put_state(vs, id@, state@) + vs.skip(j as int) =~= put_state(vs, id@, state@));
    }
    while j > 0 && !str_less(es[j - 1].id.as_str(), id)
        invariant
            j <= es@.len(),
            vs == entry_views(es@),
            forall|k: int| 0 <= k < es@.len() ==> (#[trigger] es@[k]).id@ != id@,
            put_state(vs.take(j as int), id@, state@) + vs.skip(j as int) == put_state(
                vs,
                id@,
                state@,
            ),
        decreases j,
    {
        proof {
            let t = vs.take(j as int);
            assert(t.drop_last() =~= vs.take(j - 1));
            assert(t.last() == (es@[j - 1].id@, es@[j - 1].state@));
            let u = put_state(vs.take(j - 1), id@, state@);
            assert(u.push(t.last()) + vs.skip(j as int) =~= u + vs.skip(j - 1));
        }
        j = j - 1;
    }
    proof {
        let t = vs.take(j as int);
        if j > 0 {
            assert(t.last() == (es@[j - 1].id@, es@[j - 1].state@));
        }
        assert(put_state(t, id@, state@) =~= t.push((id@, state@)));
    }
    let ghost sv = state@;
    es.insert(j, NavEntry { id: id.to_string(), state });
    assert(entry_views(es@) =~= vs.take(j as int).push((id@, sv)) + vs.skip(j as int));
}

// ---- names and scope ----

/// Whether a database and a note are named.
pub fn has_note_scope(db_id: &str, note_id: &str) -> (r: bool)
    ensures
        r == (!is_blank(db_id@) && !is_blank(note_id@)),
{
    !is_blank_str(db_id) && !is_blank_str(note_id)
}

/// Whether a database, a note and a row are named.
pub fn has_nav_scope(db_id: &str, note_id: &str, nav_id: &str) -> (r: bool)
    ensures
        r == (!is_blank(db_id@) && !is_blank(note_id@) && !is_blank(nav_id@)),
{
    !is_blank_str(db_id) && !is_blank_str(note_id) && !is_blank_str(nav_id)
}

/// The name under which the draft of a note is stored. Two notes can share it.
pub open spec fn draft_name(db: Seq<char>, note: Seq<char>) -> Seq<char> {
    "hulunote_draft_note::"@ + db + "::"@ + note
}

/// The name under which the draft of a note is stored.
pub fn draft_key(db_id: &str, note_id: &str) -> (r: String)
    ensures
        r@ == draft_name(db_id@, note_id@),
{
    let mut out = String::new();
    out.append("hulunote_draft_note::");
    out.append(db_id);
    out.append("::");
    out.append(note_id);
    assert(out@ =~= draft_name(db_id@, note_id@));
    out
}

// ---- opening a draft ----

/// The draft of a note as it is worked on: what was stored, with the names filled in, or a
/// draft without changes.
pub open spec fn opened(stored: Option<DraftView>, db: Seq<char>, note: Seq<char>) -> DraftView {
    if is_blank(db) || is_blank(note) {
        draft_default()
    } else {
        match stored {
            None => DraftView { db_id: db, note_id: note, ..draft_default() },
            Some(d) => DraftView {
                schema_version: NOTE_DRAFT_SCHEMA_CURRENT,
                db_id: if is_blank(d.db_id) {
                    db
                } else {
                    d.db_id
                },
                note_id: if is_blank(d.note_id) {
                    note
                } else {
                    d.note_id
                },
                ..d
            },
        }
    }
}

/// A draft that is opened holds the changes that were stored, or none, and it is of the
/// note it was opened for, unless it was stored under other names.
pub proof fn law_opened_draft_holds_what_was_stored(
    stored: Option<DraftView>,
    db: Seq<char>,
    note: Seq<char>,
)
    requires
        !is_blank(db),
        !is_blank(note),
    ensures
        ({
            let d = opened(stored, db, note);
            &&& !is_blank(d.db_id)
            &&& !is_blank(d.note_id)
            &&& stored matches Some(s) ==> d.title == s.title && d.nav_state == s.nav_state
                && d.updated_ms == s.updated_ms && (!is_blank(s.db_id) ==> d.db_id == s.db_id) && (
            !is_blank(s.note_id) ==> d.note_id == s.note_id) && (is_blank(s.db_id) ==> d.db_id
                == db) && (is_blank(s.note_id) ==> d.note_id == note)
            &&& stored is None ==> d.title is None && d.nav_state.len() == 0 && d.db_id == db
                && d.note_id == note
        }),
{
}

/// What an optional `NoteDraft` holds.
pub open spec fn stored_view(d: Option<NoteDraft>) -> Option<DraftView> {
    match d {
        Some(x) => Some(x@),
        None => None,
    }
}

/// Fills in the names that a stored draft lacks.
pub fn normalize_note_draft_identity(d: NoteDraft, db_id: &str, note_id: &str) -> (r: NoteDraft)
    ensures
        r@ == (DraftView {
            schema_version: NOTE_DRAFT_SCHEMA_CURRENT,
            db_id: if is_blank(d@.db_id) {
                db_id@
            } else {
                d@.db_id
            },
            note_id: if is_blank(d@.note_id) {
                note_id@
            } else {
                d@.note_id
            },
            ..d@
        }),
{
    let mut d = d;
    d.schema_version = NOTE_DRAFT_SCHEMA_CURRENT;
    if is_blank_str(d.db_id.as_str()) {
        d.db_id = db_id.to_string();
    }
    if is_blank_str(d.note_id.as_str()) {
        d.note_id = note_id.to_string();
    }
    d
}

/// Brings a stored draft up to the current form, which is the only one there is.
pub fn upgrade_note_draft_schema(d: NoteDraft, db_id: &str, note_id: &str) -> (r: NoteDraft)
    requires
        d.schema_version == NOTE_DRAFT_SCHEMA_CURRENT,
    ensures
        r@ == (DraftView {
            db_id: if is_blank(d@.db_id) {
                db_id@
            } else {
                d@.db_id
            },
            note_id: if is_blank(d@.note_id) {
                note_id@
            } else {
                d@.note_id
            },
            ..d@
        }),
{
    normalize_note_draft_identity(d, db_id, note_id)
}

/// The draft of a note as it is worked on. A stored draft must be of the current form.
pub fn load_note_draft(stored: Option<NoteDraft>, db_id: &str, note_id: &str) -> (r: NoteDraft)
    requires
        !is_blank(db_id@) && !is_blank(note_id@) ==> (stored matches Some(d)
            ==> d.schema_version == NOTE_DRAFT_SCHEMA_CURRENT && d@.wf()),
    ensures
        r@ == opened(stored_view(stored), db_id@, note_id@),
        r@.wf(),
{
    if is_blank_str(db_id) || is_blank_str(note_id) {
        return NoteDraft::default();
    }
    match stored {
        Some(d) => upgrade_note_draft_schema(d, db_id, note_id),
        None => {
            let mut d = NoteDraft::default();
            d.db_id = db_id.to_string();
            d.note_id = note_id.to_string();
            normalize_note_draft_identity(d, db_id, note_id)
        },
    }
}

/// A draft as it is stored: in the current form. One without names is not stored.
pub fn save_note_draft(d: NoteDraft) -> (r: Option<NoteDraft>)
    ensures
        stored_view(r) == (if is_blank(d@.db_id) || is_blank(d@.note_id) {
            None
        } else {
            Some(DraftView { schema_version: NOTE_DRAFT_SCHEMA_CURRENT, ..d@ })
        }),
{
    if is_blank_str(d.db_id.as_str()) || is_blank_str(d.note_id.as_str()) {
        return None;
    }
    let mut out = d;
    out.schema_version = NOTE_DRAFT_SCHEMA_CURRENT;
    Some(out)
}

// ---- changing a draft ----

/// The draft with its title changed.
pub open spec fn title_touched(d: DraftView, title: Seq<char>, now: i64) -> DraftView {
    let f = match d.title {
        Some(f) => f,
        None => field_default(),
    };
    DraftView {
        title: Some(FieldView { value: title, updated_ms: now, ..f }),
        updated_ms: now,
        ..d
    }
}

/// The draft with the changes of a row put in.
pub open spec fn with_state(d: DraftView, id: Seq<char>, s: NavStateView, now: i64) -> DraftView {
    DraftView { nav_state: put_state(d.nav_state, id, s), updated_ms: now, ..d }
}

/// The draft with the text of a row changed.
pub open spec fn nav_touched(d: DraftView, id: Seq<char>, content: Seq<char>, now: i64) -> DraftView {
    with_state(
        d,
        id,
        NavStateView {
            content,
            updated_ms: now,
            content_dirty: true,
            ..state_of(d.nav_state, id)
        },
        now,
    )
}

/// The place and state of a row.
pub open spec fn meta_of(n: NavView) -> NavMetaView {
    NavMetaView {
        parid: n.parid,
        same_deep_order: n.same_deep_order,
        is_display: n.is_display,
        is_delete: n.is_delete,
        properties: n.properties,
    }
}

/// The draft with the place and state of a row changed.
pub open spec fn meta_touched(d: DraftView, n: NavView, now: i64) -> DraftView {
    with_state(
        d,
        n.id,
        NavStateView {
            meta: Some(meta_of(n)),
            updated_ms: now,
            ..state_of(d.nav_state, n.id)
        },
        now,
    )
}

/// The greater of two times.
pub open spec fn later(a: i64, b: i64) -> i64 {
    if a >= b {
        a
    } else {
        b
    }
}

/// The draft once the server has its title as of a time.
pub open spec fn title_synced(d: DraftView, synced_ms: i64, now: i64) -> DraftView {
    let f = match d.title {
        Some(f) => f,
        None => field_default(),
    };
    DraftView {
        title: Some(
            FieldView {
                synced_ms: later(f.synced_ms, synced_ms),
                retry_count: 0,
                next_retry_ms: 0,
                ..f
            },
        ),
        updated_ms: now,
        ..d
    }
}

/// The draft once the server has the text of a row as of a time.
pub open spec fn nav_synced(d: DraftView, id: Seq<char>, synced_ms: i64, now: i64) -> DraftView {
    let s = state_of(d.nav_state, id);
    with_state(
        d,
        id,
        NavStateView {
            synced_ms: later(s.synced_ms, synced_ms),
            content_dirty: false,
            retry_count: 0,
            next_retry_ms: 0,
            ..s
        },
        now,
    )
}

/// The draft once the server has the place and state of a row.
pub open spec fn meta_synced(d: DraftView, id: Seq<char>, now: i64) -> DraftView {
    with_state(
        d,
        id,
        NavStateView {
            meta: None,
            retry_count: 0,
            next_retry_ms: 0,
            ..state_of(d.nav_state, id)
        },
        now,
    )
}

/// Two to a power.
pub open spec fn two_to(n: nat) -> int
    decreases n,
{
    if n == 0 {
        1
    } else {
        2 * two_to((n - 1) as nat)
    }
}

/// How long to wait before the `n`th try again: a second, doubled each time, up to a
/// minute.
pub open spec fn retry_delay(n: u32) -> int {
    let d = 1000 * two_to(
        if n <= 16 {
            n as nat
        } else {
            16
        },
    );
    if d <= 60_000 {
        d
    } else {
        60_000
    }
}

/// One more, up to the greatest number there is.
pub open spec fn one_more(n: u32) -> u32 {
    if n < u32::MAX {
        (n + 1) as u32
    } else {
        n
    }
}

/// A time and a delay added, up to the latest time there is.
pub open spec fn after_delay(now: i64, delay: int) -> i64 {
    if now + delay <= i64::MAX {
        (now + delay) as i64
    } else {
        i64::MAX
    }
}

/// The draft once sending its title has failed.
pub open spec fn title_failed(d: DraftView, retry_from: i64, now: i64) -> DraftView {
    let f = match d.title {
        Some(f) => f,
        None => field_default(),
    };
    let n = one_more(f.retry_count);
    DraftView {
        title: Some(
            FieldView {
                retry_count: n,
                next_retry_ms: after_delay(retry_from, retry_delay(n)),
                ..f
            },
        ),
        updated_ms: now,
        ..d
    }
}

/// The draft once sending the changes of a row has failed.
pub open spec fn nav_failed(d: DraftView, id: Seq<char>, retry_from: i64, now: i64) -> DraftView {
    let s = state_of(d.nav_state, id);
    let n = one_more(s.retry_count);
    with_state(
        d,
        id,
        NavStateView {
            retry_count: n,
            next_retry_ms: after_delay(retry_from, retry_delay(n)),
            ..s
        },
        now,
    )
}

/// How long to wait before trying again.
pub fn compute_retry_delay_ms(retry_count: u32) -> (r: i64)
    ensures
        r == retry_delay(retry_count),
        1000 <= r <= 60_000,
{
    let n: u32 = if retry_count <= 16 {
        retry_count
    } else {
        16
    };
    let mut delay: i64 = 1000;
    let mut i: u32 = 0;
    while i < n && delay <= 60_000
        invariant
            i <= n <= 16,
            delay == 1000 * two_to(i as nat),
            1000 <= delay <= 120_000,
        decreases n - i,
    {
        delay = 2 * delay;
        i = i + 1;
    }
    proof {
        lemma_two_to_grows(i as nat, n as nat);
    }
    if delay <= 60_000 {
        delay
    } else {
        60_000
    }
}

proof fn lemma_two_to_grows(a: nat, b: nat)
    requires
        a <= b,
    ensures
        1 <= two_to(a) <= two_to(b),
    decreases b,
{
    if a < b {
        lemma_two_to_grows(a, (b - 1) as nat);
    } else if b > 0 {
        lemma_two_to_grows((a - 1) as nat, (b - 1) as nat);
    }
}

/// The wait is never shorter after more failures.
pub proof fn law_retry_delay_grows(a: u32, b: u32)
    requires
        a <= b,
    ensures
        1000 <= retry_delay(a) <= retry_delay(b) <= 60_000,
{
    let x: nat = if a <= 16 {
        a as nat
    } else {
        16
    };
    let y: nat = if b <= 16 {
        b as nat
    } else {
        16
    };
    lemma_two_to_grows(x, y);
    lemma_two_to_grows(0, x);
}

/// The first wait is a second. Each failure doubles it, up to a minute.
pub proof fn law_retry_delay_doubles(n: u32)
    requires
        n < u32::MAX,
    ensures
        retry_delay(0) == 1000,
        retry_delay((n + 1) as u32) == (if 2 * retry_delay(n) <= 60_000 {
            2 * retry_delay(n)
        } else {
            60_000
        }),
{
    if n >= 6 {
        reveal_with_fuel(two_to, 7);
        lemma_two_to_grows(
            6,
            if n <= 16 {
                n as nat
            } else {
                16
            },
        );
        lemma_two_to_grows(
            6,
            if n + 1 <= 16 {
                (n + 1) as nat
            } else {
                16
            },
        );
    } else {
        lemma_two_to_grows(0, n as nat);
    }
}

fn retry_at(now: i64, retry_count: u32) -> (r: i64)
    ensures
        r == after_delay(now, retry_delay(retry_count)),
{
    let delay: i64 = compute_retry_delay_ms(retry_count);
    if now <= i64::MAX - delay {
        now + delay
    } else {
        i64::MAX
    }
}

fn count_up(n: u32) -> (r: u32)
    ensures
        r == one_more(n),
{
    if n < u32::MAX {
        n + 1
    } else {
        n
    }
}

fn take_title(d: &mut NoteDraft) -> (r: FieldDraft)
    ensures
        r@ == (match old(d)@.title {
            Some(f) => f,
            None => field_default(),
        }),
        final(d)@ == (DraftView { title: None, ..old(d)@ }),
{
    let mut title: Option<FieldDraft> = None;
    std::mem::swap(&mut title, &mut d.title);
    match title {
        Some(f) => f,
        None => FieldDraft::default(),
    }
}

/// Changes the title.
pub fn touch_title(d: &mut NoteDraft, title: &str, now_ms: i64)
    ensures
        final(d)@ == title_touched(old(d)@, title@, now_ms),
{
    let mut f = take_title(d);
    f.value = title.to_string();
    f.updated_ms = now_ms;
    d.title = Some(f);
    d.updated_ms = now_ms;
}

/// Changes the text of a row.
pub fn touch_nav(d: &mut NoteDraft, nav_id: &str, content: &str, now_ms: i64)
    requires
        old(d)@.wf(),
    ensures
        final(d)@ == nav_touched(old(d)@, nav_id@, content@, now_ms),
        final(d)@.wf(),
{
    let mut b = take_state(&mut d.nav_state, nav_id);
    b.content = content.to_string();
    b.updated_ms = now_ms;
    b.content_dirty = true;
    proof {
        law_put_then_lookup(old(d)@.nav_state, nav_id@, b@, nav_id@);
    }
    put_new_state(&mut d.nav_state, nav_id, b);
    d.updated_ms = now_ms;
}

/// Changes the place and state of a row.
pub fn touch_nav_meta(d: &mut NoteDraft, nav: &Nav, now_ms: i64)
    requires
        old(d)@.wf(),
    ensures
        final(d)@ == meta_touched(old(d)@, nav@, now_ms),
        final(d)@.wf(),
{
    let meta = NavMetaDraft {
        parid: nav.parid.clone(),
        same_deep_order: nav.same_deep_order,
        is_display: nav.is_display,
        is_delete: nav.is_delete,
        properties: clone_opt(&nav.properties),
    };
    assert(meta@ == meta_of(nav@));
    let mut b = take_state(&mut d.nav_state, nav.id.as_str());
    b.meta = Some(meta);
    b.updated_ms = now_ms;
    proof {
        law_put_then_lookup(old(d)@.nav_state, nav@.id, b@, nav@.id);
    }
    put_new_state(&mut d.nav_state, nav.id.as_str(), b);
    d.updated_ms = now_ms;
}

/// Notes that the server has the title as of a time.
pub fn mark_title_synced(d: &mut NoteDraft, synced_ms: i64, now_ms: i64)
    ensures
        final(d)@ == title_synced(old(d)@, synced_ms, now_ms),
{
    let mut f = take_title(d);
    if f.synced_ms < synced_ms {
        f.synced_ms = synced_ms;
    }
    f.retry_count = 0;
    f.next_retry_ms = 0;
    d.title = Some(f);
    d.updated_ms = now_ms;
}

/// Notes that sending the title has failed.
pub fn mark_title_sync_failed(d: &mut NoteDraft, retry_from_ms: i64, now_ms: i64)
    ensures
        final(d)@ == title_failed(old(d)@, retry_from_ms, now_ms),
{
    let mut f = take_title(d);
    f.retry_count = count_up(f.retry_count);
    f.next_retry_ms = retry_at(retry_from_ms, f.retry_count);
    d.title = Some(f);
    d.updated_ms = now_ms;
}

/// Notes that the server has the text of a row as of a time.
pub fn mark_nav_synced(d: &mut NoteDraft, nav_id: &str, synced_ms: i64, now_ms: i64)
    requires
        old(d)@.wf(),
    ensures
        final(d)@ == nav_synced(old(d)@, nav_id@, synced_ms, now_ms),
        final(d)@.wf(),
{
    let mut b = take_state(&mut d.nav_state, nav_id);
    if b.synced_ms < synced_ms {
        b.synced_ms = synced_ms;
    }
    b.content_dirty = false;
    b.retry_count = 0;
    b.next_retry_ms = 0;
    proof {
        law_put_then_lookup(old(d)@.nav_state, nav_id@, b@, nav_id@);
    }
    put_new_state(&mut d.nav_state, nav_id, b);
    d.updated_ms = now_ms;
}

/// Notes that the server has the place and state of a row.
pub fn mark_nav_meta_synced(d: &mut NoteDraft, nav_id: &str, now_ms: i64)
    requires
        old(d)@.wf(),
    ensures
        final(d)@ == meta_synced(old(d)@, nav_id@, now_ms),
        final(d)@.wf(),
{
    let mut b = take_state(&mut d.nav_state, nav_id);
    b.meta = None;
    b.retry_count = 0;
    b.next_retry_ms = 0;
    proof {
        law_put_then_lookup(old(d)@.nav_state, nav_id@, b@, nav_id@);
    }
    put_new_state(&mut d.nav_state, nav_id, b);
    d.updated_ms = now_ms;
}

/// Notes that sending the changes of a row has failed.
pub fn mark_nav_sync_failed(d: &mut NoteDraft, nav_id: &str, retry_from_ms: i64, now_ms: i64)
    requires
        old(d)@.wf(),
    ensures
        final(d)@ == nav_failed(old(d)@, nav_id@, retry_from_ms, now_ms),
        final(d)@.wf(),
{
    let mut b = take_state(&mut d.nav_state, nav_id);
    b.retry_count = count_up(b.retry_count);
    b.next_retry_ms = retry_at(retry_from_ms, b.retry_count);
    proof {
        law_put_then_lookup(old(d)@.nav_state, nav_id@, b@, nav_id@);
    }
    put_new_state(&mut d.nav_state, nav_id, b);
    d.updated_ms = now_ms;
}

/// Notes that sending the place and state of a row has failed.
pub fn mark_nav_meta_sync_failed(d: &mut NoteDraft, nav_id: &str, retry_from_ms: i64, now_ms: i64)
    requires
        old(d)@.wf(),
    ensures
        final(d)@ == nav_failed(old(d)@, nav_id@, retry_from_ms, now_ms),
        final(d)@.wf(),
{
    mark_nav_sync_failed(d, nav_id, retry_from_ms, now_ms);
}

} // verus!
