//! What of a draft waits to be sent, and what of that to send now.

use crate::drafts::note::{NavDraftState, NavMetaDraft, NoteDraft};
use vstd::prelude::*;

verus! {

use crate::drafts::note::{
    after_delay, entry_ids, entry_views, later, law_put_then_lookup, lookup, meta_of, meta_synced,
    meta_touched, nav_failed, nav_synced, nav_touched, one_more, put_state, retry_delay, state_of,
    title_synced, title_touched, DraftView, NavMetaView, NavStateView,
};
use crate::models::{str_views, NavView};
use crate::strset::ascending;
use crate::text::{lemma_lex_irreflexive, lex_less};

/// Whether the text of a row waits to be sent.
pub open spec fn content_waits(s: NavStateView) -> bool {
    s.content_dirty && s.updated_ms > s.synced_ms
}

/// Whether anything of a row waits to be sent.
pub open spec fn waits(s: NavStateView) -> bool {
    content_waits(s) || s.meta is Some
}

/// Whether it is time to try to send the changes of a row.
pub open spec fn is_due(s: NavStateView, now: i64) -> bool {
    s.next_retry_ms == 0 || s.next_retry_ms <= now
}

/// Whether the server has the title.
pub open spec fn title_is_synced(d: DraftView) -> bool {
    d.title matches Some(f) ==> f.updated_ms <= f.synced_ms
}

/// Whether the server has everything.
pub open spec fn fully_synced(d: DraftView) -> bool {
    &&& title_is_synced(d)
    &&& forall|i: int| 0 <= i < d.nav_state.len() ==> !waits((#[trigger] d.nav_state[i]).1)
}

/// Whether the server has everything.
pub fn is_note_fully_synced(d: &NoteDraft) -> (r: bool)
    ensures
        r == fully_synced(d@),
{
    if let Some(f) = &d.title {
        if f.updated_ms > f.synced_ms {
            return false;
        }
    }
    let ghost es = entry_views(d.nav_state@);
    let mut i: usize = 0;
    while i < d.nav_state.len()
        invariant
            i <= d.nav_state@.len(),
            es == entry_views(d.nav_state@),
            title_is_synced(d@),
            forall|j: int| 0 <= j < i ==> !waits((#[trigger] es[j]).1),
        decreases d.nav_state@.len() - i,
    {
        let b: &NavDraftState = &d.nav_state[i].state;
        assert(d@.nav_state[i as int].1 == b@);
        if (b.content_dirty && b.updated_ms > b.synced_ms) || b.meta.is_some() {
            return false;
        }
        i = i + 1;
    }
    true
}

/// The rows whose texts wait to be sent: id, text and time of change.
pub open spec fn unsynced(es: Seq<(Seq<char>, NavStateView)>) -> Seq<(Seq<char>, Seq<char>, i64)>
    decreases es.len(),
{
    if es.len() == 0 {
        Seq::empty()
    } else {
        let rest = unsynced(es.drop_last());
        let (id, s) = es.last();
        if content_waits(s) {
            rest.push((id, s.content, s.updated_ms))
        } else {
            rest
        }
    }
}

/// Those of the rows whose texts wait to be sent for which it is time.
pub open spec fn due_contents(es: Seq<(Seq<char>, NavStateView)>, now: i64) -> Seq<
    (Seq<char>, Seq<char>, i64),
>
    decreases es.len(),
{
    if es.len() == 0 {
        Seq::empty()
    } else {
        let rest = due_contents(es.drop_last(), now);
        let (id, s) = es.last();
        if content_waits(s) && is_due(s, now) {
            rest.push((id, s.content, s.updated_ms))
        } else {
            rest
        }
    }
}

/// The rows whose places and states wait to be sent and for which it is time.
pub open spec fn due_metas(es: Seq<(Seq<char>, NavStateView)>, now: i64) -> Seq<
    (Seq<char>, NavMetaView, i64),
>
    decreases es.len(),
{
    if es.len() == 0 {
        Seq::empty()
    } else {
        let rest = due_metas(es.drop_last(), now);
        let (id, s) = es.last();
        if is_due(s, now) && s.meta is Some {
            rest.push((id, s.meta->0, s.updated_ms))
        } else {
            rest
        }
    }
}

/// The first entries of a list: as many as asked for, but at least one where there is one.
pub open spec fn first_entries<T>(xs: Seq<T>, limit: nat) -> Seq<T> {
    let n: nat = if limit == 0 {
        1
    } else {
        limit
    };
    if xs.len() <= n {
        xs
    } else {
        xs.take(n as int)
    }
}

/// What a list of ids, texts and times holds.
pub open spec fn content_views(xs: Seq<(String, String, i64)>) -> Seq<(Seq<char>, Seq<char>, i64)> {
    Seq::new(xs.len(), |i: int| (xs[i].0@, xs[i].1@, xs[i].2))
}

/// What a list of ids, places and times holds.
pub open spec fn metas_views(xs: Seq<(String, NavMetaDraft, i64)>) -> Seq<
    (Seq<char>, NavMetaView, i64),
> {
    Seq::new(xs.len(), |i: int| (xs[i].0@, xs[i].1@, xs[i].2))
}

proof fn lemma_due_contents_prefix(es: Seq<(Seq<char>, NavStateView)>, k: int, now: i64)
    requires
        0 <= k <= es.len(),
    ensures
        ({
            let a = due_contents(es.take(k), now);
            let b = due_contents(es, now);
            a.len() <= b.len() && b.take(a.len() as int) == a
        }),
    decreases es.len() - k,
{
    if k < es.len() {
        lemma_due_contents_prefix(es, k + 1, now);
        assert(es.take(k + 1).drop_last() =~= es.take(k));
        let a = due_contents(es.take(k), now);
        let c = due_contents(es.take(k + 1), now);
        let b = due_contents(es, now);
        assert(c.take(a.len() as int) =~= a);
        assert(b.take(a.len() as int) =~= c.take(a.len() as int));
    } else {
        assert(es.take(k) =~= es);
        let b = due_contents(es, now);
        assert(b.take(b.len() as int) =~= b);
    }
}

proof fn lemma_due_metas_prefix(es: Seq<(Seq<char>, NavStateView)>, k: int, now: i64)
    requires
        0 <= k <= es.len(),
    ensures
        ({
            let a = due_metas(es.take(k), now);
            let b = due_metas(es, now);
            a.len() <= b.len() && b.take(a.len() as int) == a
        }),
    decreases es.len() - k,
{
    if k < es.len() {
        lemma_due_metas_prefix(es, k + 1, now);
        assert(es.take(k + 1).drop_last() =~= es.take(k));
        let a = due_metas(es.take(k), now);
        let c = due_metas(es.take(k + 1), now);
        let b = due_metas(es, now);
        assert(c.take(a.len() as int) =~= a);
        assert(b.take(a.len() as int) =~= c.take(a.len() as int));
    } else {
        assert(es.take(k) =~= es);
        let b = due_metas(es, now);
        assert(b.take(b.len() as int) =~= b);
    }
}

/// The texts to send now.
pub fn get_due_unsynced_nav_drafts(d: &NoteDraft, now_ms: i64, limit: usize) -> (r: Vec<
    (String, String, i64),
>)
    ensures
        content_views(r@) == first_entries(due_contents(d@.nav_state, now_ms), limit as nat),
{
    let ghost es = entry_views(d.nav_state@);
    let mut out: Vec<(String, String, i64)> = Vec::new();
    let mut i: usize = 0;
    assert(es.take(0) =~= Seq::<(Seq<char>, NavStateView)>::empty());
    assert(content_views(out@) =~= Seq::<(Seq<char>, Seq<char>, i64)>::empty());
    while i < d.nav_state.len()
        invariant
            i <= d.nav_state@.len(),
            es == entry_views(d.nav_state@),
            content_views(out@) == due_contents(es.take(i as int), now_ms),
            out@.len() == 0 || out@.len() < limit,
        decreases d.nav_state@.len() - i,
    {
        let b: &NavDraftState = &d.nav_state[i].state;
        proof {
            assert(es.take(i + 1).drop_last() =~= es.take(i as int));
            assert(es.take(i + 1).last() == (d.nav_state@[i as int].id@, b@));
        }
        let ghost before = content_views(out@);
        if b.content_dirty && b.updated_ms > b.synced_ms && (b.next_retry_ms == 0
            || b.next_retry_ms <= now_ms) {
            out.push((d.nav_state[i].id.clone(), b.content.clone(), b.updated_ms));
            proof {
                assert(content_views(out@) =~= before.push(
                    (d.nav_state@[i as int].id@, b@.content, b@.updated_ms),
                ));
                assert(content_views(out@).len() == out@.len());
            }
            if out.len() >= limit {
                proof {
                    lemma_due_contents_prefix(es, i + 1, now_ms);
                    let all = due_contents(es, now_ms);
                    assert(all.take(out@.len() as int) == content_views(out@));
                    if all.len() == out@.len() {
                        assert(all.take(all.len() as int) =~= all);
                    }
                }
                return out;
            }
        }
        i = i + 1;
    }
    assert(es.take(i as int) =~= es);
    assert(content_views(out@).len() == out@.len());
    out
}

/// The places and states to send now.
pub fn get_due_unsynced_nav_meta_drafts(d: &NoteDraft, now_ms: i64, limit: usize) -> (r: Vec<
    (String, NavMetaDraft, i64),
>)
    ensures
        metas_views(r@) == first_entries(due_metas(d@.nav_state, now_ms), limit as nat),
{
    let ghost es = entry_views(d.nav_state@);
    let mut out: Vec<(String, NavMetaDraft, i64)> = Vec::new();
    let mut i: usize = 0;
    assert(es.take(0) =~= Seq::<(Seq<char>, NavStateView)>::empty());
    assert(metas_views(out@) =~= Seq::<(Seq<char>, NavMetaView, i64)>::empty());
    while i < d.nav_state.len()
        invariant
            i <= d.nav_state@.len(),
            es == entry_views(d.nav_state@),
            metas_views(out@) == due_metas(es.take(i as int), now_ms),
            out@.len() == 0 || out@.len() < limit,
        decreases d.nav_state@.len() - i,
    {
        let b: &NavDraftState = &d.nav_state[i].state;
        proof {
            assert(es.take(i + 1).drop_last() =~= es.take(i as int));
            assert(es.take(i + 1).last() == (d.nav_state@[i as int].id@, b@));
        }
        let ghost before = metas_views(out@);
        let due: bool = b.next_retry_ms == 0 || b.next_retry_ms <= now_ms;
        if due {
            if let Some(meta) = &b.meta {
                out.push((d.nav_state[i].id.clone(), meta.clone(), b.updated_ms));
                proof {
                    assert(metas_views(out@) =~= before.push(
                        (d.nav_state@[i as int].id@, meta@, b@.updated_ms),
                    ));
                    assert(metas_views(out@).len() == out@.len());
                }
                if out.len() >= limit {
                    proof {
                        lemma_due_metas_prefix(es, i + 1, now_ms);
                        let all = due_metas(es, now_ms);
                        assert(all.take(out@.len() as int) == metas_views(out@));
                        if all.len() == out@.len() {
                            assert(all.take(all.len() as int) =~= all);
                        }
                    }
                    return out;
                }
            }
        }
        i = i + 1;
    }
    assert(es.take(i as int) =~= es);
    assert(metas_views(out@).len() == out@.len());
    out
}

/// The texts that wait to be sent.
pub fn get_unsynced_nav_drafts(d: &NoteDraft) -> (r: Vec<(String, String, i64)>)
    ensures
        content_views(r@) == unsynced(d@.nav_state),
{
    let ghost es = entry_views(d.nav_state@);
    let mut out: Vec<(String, String, i64)> = Vec::new();
    let mut i: usize = 0;
    assert(es.take(0) =~= Seq::<(Seq<char>, NavStateView)>::empty());
    assert(content_views(out@) =~= Seq::<(Seq<char>, Seq<char>, i64)>::empty());
    while i < d.nav_state.len()
        invariant
            i <= d.nav_state@.len(),
            es == entry_views(d.nav_state@),
            content_views(out@) == unsynced(es.take(i as int)),
        decreases d.nav_state@.len() - i,
    {
        let b: &NavDraftState = &d.nav_state[i].state;
        proof {
            assert(es.take(i + 1).drop_last() =~= es.take(i as int));
            assert(es.take(i + 1).last() == (d.nav_state@[i as int].id@, b@));
        }
        let ghost before = content_views(out@);
        if b.content_dirty && b.updated_ms > b.synced_ms {
            out.push((d.nav_state[i].id.clone(), b.content.clone(), b.updated_ms));
            assert(content_views(out@) =~= before.push(
                (d.nav_state@[i as int].id@, b@.content, b@.updated_ms),
            ));
        }
        i = i + 1;
    }
    assert(es.take(i as int) =~= es);
    out
}

/// The ids of the rows of which anything waits to be sent.
pub open spec fn pending_ids(es: Seq<(Seq<char>, NavStateView)>) -> Seq<Seq<char>>
    decreases es.len(),
{
    if es.len() == 0 {
        Seq::empty()
    } else {
        let rest = pending_ids(es.drop_last());
        if waits(es.last().1) {
            rest.push(es.last().0)
        } else {
            rest
        }
    }
}

/// The ids of the rows of which anything waits to be sent, in ascending order.
pub fn get_pending_nav_ids(d: &NoteDraft) -> (r: Vec<String>)
    ensures
        str_views(r@) == pending_ids(d@.nav_state),
{
    let ghost es = entry_views(d.nav_state@);
    let mut out: Vec<String> = Vec::new();
    let mut i: usize = 0;
    assert(es.take(0) =~= Seq::<(Seq<char>, NavStateView)>::empty());
    assert(str_views(out@) =~= Seq::<Seq<char>>::empty());
    while i < d.nav_state.len()
        invariant
            i <= d.nav_state@.len(),
            es == entry_views(d.nav_state@),
            str_views(out@) == pending_ids(es.take(i as int)),
        decreases d.nav_state@.len() - i,
    {
        let b: &NavDraftState = &d.nav_state[i].state;
        proof {
            assert(es.take(i + 1).drop_last() =~= es.take(i as int));
            assert(es.take(i + 1).last() == (d.nav_state@[i as int].id@, b@));
        }
        let ghost before = str_views(out@);
        if (b.content_dirty && b.updated_ms > b.synced_ms) || b.meta.is_some() {
            out.push(d.nav_state[i].id.clone());
            assert(str_views(out@) =~= before.push(d.nav_state@[i as int].id@));
        }
        i = i + 1;
    }
    assert(es.take(i as int) =~= es);
    out
}

// ---- laws ----

/// Anything of a row waits exactly if its id is among those of the waiting rows.
pub proof fn law_pending_ids_are_those_that_wait(
    es: Seq<(Seq<char>, NavStateView)>,
    id: Seq<char>,
)
    requires
        ascending(entry_ids(es)),
    ensures
        pending_ids(es).contains(id) == (lookup(es, id) matches Some(s) && waits(s)),
    decreases es.len(),
{
    let r = pending_ids(es);
    if es.len() > 0 {
        let p = es.drop_last();
        let last = es.last();
        let rp = pending_ids(p);
        assert forall|i: int, j: int| 0 <= i < j < p.len() implies lex_less(
            entry_ids(p)[i],
            entry_ids(p)[j],
        ) by {
            assert(lex_less(entry_ids(es)[i], entry_ids(es)[j]));
        }
        law_pending_ids_are_those_that_wait(p, id);
        if waits(last.1) {
            assert(r[r.len() - 1] == last.0);
            if rp.contains(id) {
                let i = choose|i: int| 0 <= i < rp.len() && rp[i] == id;
                assert(r[i] == id);
            }
            if r.contains(id) && last.0 != id {
                let i = choose|i: int| 0 <= i < r.len() && r[i] == id;
                assert(rp[i] == id);
            }
        }
        if last.0 == id {
            // No other row has the id.
            assert(lookup(p, id) is None) by {
                if lookup(p, id) is Some {
                    lemma_lookup_has_index(p, id);
                    let i = choose|i: int| 0 <= i < p.len() && (#[trigger] p[i]).0 == id;
                    assert(lex_less(entry_ids(es)[i], entry_ids(es)[es.len() - 1]));
                    lemma_lex_irreflexive(id);
                }
            }
        }
    }
}

/// A row whose changes are found stands among the rows.
pub proof fn lemma_lookup_has_index(es: Seq<(Seq<char>, NavStateView)>, id: Seq<char>)
    requires
        lookup(es, id) is Some,
    ensures
        exists|i: int| 0 <= i < es.len() && (#[trigger] es[i]).0 == id && Some(es[i].1) == lookup(
            es,
            id,
        ),
    decreases es.len(),
{
    if es.last().0 == id {
        assert(es[es.len() - 1].0 == id);
    } else {
        lemma_lookup_has_index(es.drop_last(), id);
        let i = choose|i: int|
            0 <= i < es.drop_last().len() && (#[trigger] es.drop_last()[i]).0 == id && Some(
                es.drop_last()[i].1,
            ) == lookup(es.drop_last(), id);
        assert(es[i].0 == id);
    }
}

proof fn lemma_nothing_waits(es: Seq<(Seq<char>, NavStateView)>)
    ensures
        (pending_ids(es).len() == 0) == (forall|i: int|
            0 <= i < es.len() ==> !waits((#[trigger] es[i]).1)),
    decreases es.len(),
{
    if es.len() > 0 {
        let p = es.drop_last();
        lemma_nothing_waits(p);
        if forall|i: int| 0 <= i < es.len() ==> !waits((#[trigger] es[i]).1) {
            assert forall|i: int| 0 <= i < p.len() implies !waits((#[trigger] p[i]).1) by {
                assert(p[i] == es[i]);
            }
            assert(!waits(es[es.len() - 1].1));
        }
        if pending_ids(es).len() == 0 {
            assert forall|i: int| 0 <= i < es.len() implies !waits((#[trigger] es[i]).1) by {
                if i < p.len() {
                    assert(p[i] == es[i]);
                }
            }
        }
    }
}

/// The server has everything exactly if it has the title and nothing of any row waits.
pub proof fn law_synced_means_nothing_waits(d: DraftView)
    ensures
        fully_synced(d) == (title_is_synced(d) && pending_ids(d.nav_state).len() == 0),
{
    lemma_nothing_waits(d.nav_state);
}

/// What is to be sent at some time is among what waits, and at the latest time there is
/// all that waits is to be sent.
pub proof fn law_due_contents_wait(es: Seq<(Seq<char>, NavStateView)>, now: i64)
    ensures
        forall|i: int|
            0 <= i < due_contents(es, now).len() ==> unsynced(es).contains(
                #[trigger] due_contents(es, now)[i],
            ),
        due_contents(es, i64::MAX) == unsynced(es),
    decreases es.len(),
{
    if es.len() > 0 {
        let p = es.drop_last();
        law_due_contents_wait(p, now);
        let dp = due_contents(p, now);
        let d = due_contents(es, now);
        let up = unsynced(p);
        let u = unsynced(es);
        assert forall|i: int| 0 <= i < d.len() implies u.contains(#[trigger] d[i]) by {
            if i < dp.len() {
                assert(d[i] == dp[i]);
                let j = choose|j: int| 0 <= j < up.len() && up[j] == dp[i];
                assert(u[j] == d[i]);
            } else {
                assert(u[u.len() - 1] == d[i]);
            }
        }
    }
}

/// A changed text waits from a time after it was last sent, and no longer once the server
/// has it. The place and state of the row are not touched by that.
pub proof fn law_text_waits_until_synced(
    d: DraftView,
    id: Seq<char>,
    content: Seq<char>,
    now: i64,
    synced_ms: i64,
    later_ms: i64,
)
    requires
        d.wf(),
        state_of(d.nav_state, id).synced_ms < now,
    ensures
        ({
            let changed = nav_touched(d, id, content, now);
            let sent = nav_synced(changed, id, synced_ms, later_ms);
            &&& content_waits(state_of(changed.nav_state, id))
            &&& pending_ids(changed.nav_state).contains(id)
            &&& !content_waits(state_of(sent.nav_state, id))
            &&& state_of(sent.nav_state, id).meta == state_of(d.nav_state, id).meta
        }),
{
    let changed = nav_touched(d, id, content, now);
    let s1 = NavStateView {
        content,
        updated_ms: now,
        content_dirty: true,
        ..state_of(d.nav_state, id)
    };
    law_put_then_lookup(d.nav_state, id, s1, id);
    law_pending_ids_are_those_that_wait(changed.nav_state, id);
    let s2 = NavStateView {
        synced_ms: later(s1.synced_ms, synced_ms),
        content_dirty: false,
        retry_count: 0,
        next_retry_ms: 0,
        ..s1
    };
    law_put_then_lookup(changed.nav_state, id, s2, id);
}

/// A changed place or state waits until the server has it. The text of the row is not
/// touched by that.
pub proof fn law_place_waits_until_synced(d: DraftView, n: NavView, now: i64, later_ms: i64)
    requires
        d.wf(),
    ensures
        ({
            let changed = meta_touched(d, n, now);
            let sent = meta_synced(changed, n.id, later_ms);
            &&& pending_ids(changed.nav_state).contains(n.id)
            &&& state_of(sent.nav_state, n.id).meta is None
            &&& state_of(sent.nav_state, n.id).content == state_of(d.nav_state, n.id).content
            &&& state_of(sent.nav_state, n.id).content_dirty == state_of(
                d.nav_state,
                n.id,
            ).content_dirty
            &&& state_of(sent.nav_state, n.id).synced_ms == state_of(d.nav_state, n.id).synced_ms
        }),
{
    let changed = meta_touched(d, n, now);
    let s1 = NavStateView {
        meta: Some(meta_of(n)),
        updated_ms: now,
        ..state_of(d.nav_state, n.id)
    };
    law_put_then_lookup(d.nav_state, n.id, s1, n.id);
    law_pending_ids_are_those_that_wait(changed.nav_state, n.id);
    let s2 = NavStateView { meta: None, retry_count: 0, next_retry_ms: 0, ..s1 };
    law_put_then_lookup(changed.nav_state, n.id, s2, n.id);
}

/// Failing to send loses nothing: what waited waits, for this row and for every other.
pub proof fn law_failure_keeps_what_waits(
    d: DraftView,
    id: Seq<char>,
    retry_from: i64,
    now: i64,
    other: Seq<char>,
)
    requires
        d.wf(),
    ensures
        pending_ids(nav_failed(d, id, retry_from, now).nav_state).contains(other) == pending_ids(
            d.nav_state,
        ).contains(other),
{
    let s = state_of(d.nav_state, id);
    let n = one_more(s.retry_count);
    let s1 = NavStateView {
        retry_count: n,
        next_retry_ms: after_delay(retry_from, retry_delay(n)),
        ..s
    };
    law_put_then_lookup(d.nav_state, id, s1, other);
    law_pending_ids_are_those_that_wait(d.nav_state, other);
    law_pending_ids_are_those_that_wait(nav_failed(d, id, retry_from, now).nav_state, other);
}

proof fn lemma_put_synced(d: DraftView, id: Seq<char>, s: NavStateView)
    requires
        d.wf(),
        forall|x: Seq<char>|
            x != id ==> !pending_ids(d.nav_state).contains(x),
        !waits(s),
    ensures
        pending_ids(put_state(d.nav_state, id, s)).len() == 0,
{
    let es = put_state(d.nav_state, id, s);
    let r = pending_ids(es);
    if r.len() > 0 {
        let x = r[0];
        assert(r.contains(x));
        law_put_then_lookup(d.nav_state, id, s, x);
        law_pending_ids_are_those_that_wait(es, x);
        law_pending_ids_are_those_that_wait(d.nav_state, x);
    }
}

/// A note of which only one text was changed is clean again once the server has that text.
pub proof fn law_sent_text_leaves_a_clean_draft(
    d: DraftView,
    id: Seq<char>,
    content: Seq<char>,
    now: i64,
    synced_ms: i64,
    later_ms: i64,
)
    requires
        d.wf(),
        fully_synced(d),
    ensures
        fully_synced(nav_synced(nav_touched(d, id, content, now), id, synced_ms, later_ms)),
{
    law_synced_means_nothing_waits(d);
    let changed = nav_touched(d, id, content, now);
    let s0 = state_of(d.nav_state, id);
    let s1 = NavStateView { content, updated_ms: now, content_dirty: true, ..s0 };
    law_put_then_lookup(d.nav_state, id, s1, id);
    law_pending_ids_are_those_that_wait(d.nav_state, id);
    assert(s0.meta is None);
    let s2 = NavStateView {
        synced_ms: later(s1.synced_ms, synced_ms),
        content_dirty: false,
        retry_count: 0,
        next_retry_ms: 0,
        ..s1
    };
    assert forall|x: Seq<char>| x != id implies !pending_ids(changed.nav_state).contains(x) by {
        law_put_then_lookup(d.nav_state, id, s1, x);
        law_pending_ids_are_those_that_wait(d.nav_state, x);
        law_pending_ids_are_those_that_wait(changed.nav_state, x);
    }
    lemma_put_synced(changed, id, s2);
    law_synced_means_nothing_waits(nav_synced(changed, id, synced_ms, later_ms));
}

/// The time as of which the server has the title.
pub open spec fn title_synced_at(d: DraftView) -> i64 {
    match d.title {
        Some(f) => f.synced_ms,
        None => 0,
    }
}

/// A note of which only the title was changed is clean again once the server has it as of
/// the change or later.
pub proof fn law_sent_title_leaves_a_clean_draft(
    d: DraftView,
    title: Seq<char>,
    now: i64,
    synced_ms: i64,
    later_ms: i64,
)
    requires
        fully_synced(d),
        now <= later(title_synced_at(d), synced_ms),
    ensures
        fully_synced(title_synced(title_touched(d, title, now), synced_ms, later_ms)),
{
}

} // verus!
