//! Laws of what is to be sent, and when.

use vstd::prelude::*;

verus! {

use crate::drafts::note::{
    after_delay, entry_ids, later, law_put_then_lookup, law_retry_delay_doubles,
    law_retry_delay_grows, lemma_lookup_at, lookup, meta_of, meta_synced, meta_touched, nav_failed,
    nav_synced, nav_touched, one_more, retry_delay, state_of, title_failed, title_synced,
    title_touched, DraftView, NavMetaView, NavStateView,
};
use crate::drafts::queue::{
    due_contents, due_metas, first_entries, fully_synced, lemma_lookup_has_index, unsynced,
};
use crate::models::NavView;
use crate::strset::ascending;
use crate::text::lex_less;

// ---- what is to be sent at a time ----

proof fn lemma_due_meta_at(es: Seq<(Seq<char>, NavStateView)>, now: i64, x: (Seq<char>, NavMetaView, i64))
    ensures
        due_metas(es, now).contains(x) <==> exists|i: int|
            0 <= i < es.len() && (#[trigger] es[i]).0 == x.0 && es[i].1.meta == Some(x.1)
                && es[i].1.updated_ms == x.2 && (es[i].1.next_retry_ms == 0
                || es[i].1.next_retry_ms <= now),
    decreases es.len(),
{
    let d = due_metas(es, now);
    if es.len() > 0 {
        let p = es.drop_last();
        let dp = due_metas(p, now);
        lemma_due_meta_at(p, now, x);
        let last = es[es.len() - 1];
        if dp.contains(x) {
            let j = choose|j: int| 0 <= j < dp.len() && dp[j] == x;
            assert(d[j] == x);
            let i = choose|i: int|
                0 <= i < p.len() && (#[trigger] p[i]).0 == x.0 && p[i].1.meta == Some(x.1)
                    && p[i].1.updated_ms == x.2 && (p[i].1.next_retry_ms == 0
                    || p[i].1.next_retry_ms <= now);
            assert(es[i] == p[i]);
        } else {
            if d.contains(x) {
                let j = choose|j: int| 0 <= j < d.len() && d[j] == x;
                if j < dp.len() {
                    assert(dp[j] == x);
                }
                assert(last.0 == x.0);
            }
            if exists|i: int|
                0 <= i < es.len() && (#[trigger] es[i]).0 == x.0 && es[i].1.meta == Some(x.1)
                    && es[i].1.updated_ms == x.2 && (es[i].1.next_retry_ms == 0
                    || es[i].1.next_retry_ms <= now) {
                let i = choose|i: int|
                    0 <= i < es.len() && (#[trigger] es[i]).0 == x.0 && es[i].1.meta == Some(x.1)
                        && es[i].1.updated_ms == x.2 && (es[i].1.next_retry_ms == 0
                        || es[i].1.next_retry_ms <= now);
                if i < p.len() {
                    assert(p[i] == es[i]);
                }
                assert(d[d.len() - 1] == x);
            }
        }
    }
}

/// The place and state of a row is to be sent at a time exactly if it waits and the time
/// for the next try has come, or none was set. It is sent as it waits, with the time of
/// the change. At the latest time there is, all that wait are to be sent.
pub proof fn law_waiting_places_are_due(
    es: Seq<(Seq<char>, NavStateView)>,
    id: Seq<char>,
    meta: NavMetaView,
    updated_ms: i64,
    now: i64,
)
    requires
        ascending(entry_ids(es)),
    ensures
        due_metas(es, now).contains((id, meta, updated_ms)) <==> (lookup(es, id) matches Some(s)
            && s.meta == Some(meta) && s.updated_ms == updated_ms && (s.next_retry_ms == 0
            || s.next_retry_ms <= now)),
        due_metas(es, i64::MAX).contains((id, meta, updated_ms)) <==> (lookup(es, id) matches Some(
            s,
        ) && s.meta == Some(meta) && s.updated_ms == updated_ms),
{
    lemma_due_meta_at(es, now, (id, meta, updated_ms));
    lemma_due_meta_at(es, i64::MAX, (id, meta, updated_ms));
    assert forall|i: int| 0 <= i < es.len() implies lookup(es, (#[trigger] es[i]).0) == Some(
        es[i].1,
    ) by {
        lemma_lookup_at(es, i);
    }
    if lookup(es, id) is Some {
        lemma_lookup_has_index(es, id);
    }
}

proof fn lemma_due_content_at(
    es: Seq<(Seq<char>, NavStateView)>,
    now: i64,
    x: (Seq<char>, Seq<char>, i64),
)
    ensures
        due_contents(es, now).contains(x) <==> exists|i: int|
            0 <= i < es.len() && (#[trigger] es[i]).0 == x.0 && es[i].1.content == x.1
                && es[i].1.updated_ms == x.2 && es[i].1.content_dirty && es[i].1.synced_ms < x.2
                && (es[i].1.next_retry_ms == 0 || es[i].1.next_retry_ms <= now),
    decreases es.len(),
{
    let d = due_contents(es, now);
    if es.len() > 0 {
        let p = es.drop_last();
        let dp = due_contents(p, now);
        lemma_due_content_at(p, now, x);
        let last = es[es.len() - 1];
        if dp.contains(x) {
            let j = choose|j: int| 0 <= j < dp.len() && dp[j] == x;
            assert(d[j] == x);
            let i = choose|i: int|
                0 <= i < p.len() && (#[trigger] p[i]).0 == x.0 && p[i].1.content == x.1
                    && p[i].1.updated_ms == x.2 && p[i].1.content_dirty && p[i].1.synced_ms < x.2
                    && (p[i].1.next_retry_ms == 0 || p[i].1.next_retry_ms <= now);
            assert(es[i] == p[i]);
        } else {
            if d.contains(x) {
                let j = choose|j: int| 0 <= j < d.len() && d[j] == x;
                if j < dp.len() {
                    assert(dp[j] == x);
                }
                assert(last.0 == x.0);
            }
            if exists|i: int|
                0 <= i < es.len() && (#[trigger] es[i]).0 == x.0 && es[i].1.content == x.1
                    && es[i].1.updated_ms == x.2 && es[i].1.content_dirty && es[i].1.synced_ms < x.2
                    && (es[i].1.next_retry_ms == 0 || es[i].1.next_retry_ms <= now) {
                let i = choose|i: int|
                    0 <= i < es.len() && (#[trigger] es[i]).0 == x.0 && es[i].1.content == x.1
                        && es[i].1.updated_ms == x.2 && es[i].1.content_dirty && es[i].1.synced_ms
                        < x.2 && (es[i].1.next_retry_ms == 0 || es[i].1.next_retry_ms <= now);
                if i < p.len() {
                    assert(p[i] == es[i]);
                }
                assert(d[d.len() - 1] == x);
            }
        }
    }
}

proof fn lemma_unsynced_is_due_at_last(es: Seq<(Seq<char>, NavStateView)>)
    ensures
        unsynced(es) == due_contents(es, i64::MAX),
    decreases es.len(),
{
    if es.len() > 0 {
        lemma_unsynced_is_due_at_last(es.drop_last());
    }
}

/// The text of a row waits exactly if it was changed and the change is later than what
/// the server has. It is to be sent at a time exactly if it waits and the time for the
/// next try has come, or none was set. It is sent as it waits, with the time of the
/// change.
pub proof fn law_waiting_texts_are_due(
    es: Seq<(Seq<char>, NavStateView)>,
    id: Seq<char>,
    content: Seq<char>,
    updated_ms: i64,
    now: i64,
)
    requires
        ascending(entry_ids(es)),
    ensures
        due_contents(es, now).contains((id, content, updated_ms)) <==> (lookup(es, id) matches Some(
            s,
        ) && s.content == content && s.updated_ms == updated_ms && s.content_dirty && s.synced_ms
            < updated_ms && (s.next_retry_ms == 0 || s.next_retry_ms <= now)),
        unsynced(es).contains((id, content, updated_ms)) <==> (lookup(es, id) matches Some(s)
            && s.content == content && s.updated_ms == updated_ms && s.content_dirty && s.synced_ms
            < updated_ms),
{
    lemma_unsynced_is_due_at_last(es);
    lemma_due_content_at(es, now, (id, content, updated_ms));
    lemma_due_content_at(es, i64::MAX, (id, content, updated_ms));
    assert forall|i: int| 0 <= i < es.len() implies lookup(es, (#[trigger] es[i]).0) == Some(
        es[i].1,
    ) by {
        lemma_lookup_at(es, i);
    }
    if lookup(es, id) is Some {
        lemma_lookup_has_index(es, id);
    }
}

proof fn lemma_prefix_ascends(es: Seq<(Seq<char>, NavStateView)>)
    requires
        ascending(entry_ids(es)),
        es.len() > 0,
    ensures
        ascending(entry_ids(es.drop_last())),
{
    let p = es.drop_last();
    assert forall|i: int, j: int| 0 <= i < j < p.len() implies lex_less(
        entry_ids(p)[i],
        entry_ids(p)[j],
    ) by {
        assert(lex_less(entry_ids(es)[i], entry_ids(es)[j]));
    }
}

/// No row is to be sent twice at a time: the rows to be sent stand by their ids.
pub proof fn law_due_rows_stand_by_id(es: Seq<(Seq<char>, NavStateView)>, now: i64)
    requires
        ascending(entry_ids(es)),
    ensures
        forall|i: int, j: int|
            0 <= i < j < due_metas(es, now).len() ==> lex_less(
                (#[trigger] due_metas(es, now)[i]).0,
                (#[trigger] due_metas(es, now)[j]).0,
            ),
        forall|i: int, j: int|
            0 <= i < j < due_contents(es, now).len() ==> lex_less(
                (#[trigger] due_contents(es, now)[i]).0,
                (#[trigger] due_contents(es, now)[j]).0,
            ),
    decreases es.len(),
{
    if es.len() > 0 {
        let p = es.drop_last();
        lemma_prefix_ascends(es);
        law_due_rows_stand_by_id(p, now);
        let mp = due_metas(p, now);
        let m = due_metas(es, now);
        let cp = due_contents(p, now);
        let c = due_contents(es, now);
        assert forall|i: int| 0 <= i < mp.len() implies lex_less(
            (#[trigger] mp[i]).0,
            es.last().0,
        ) by {
            lemma_due_meta_at(p, now, mp[i]);
            assert(mp.contains(mp[i]));
            let a = choose|a: int| 0 <= a < p.len() && (#[trigger] p[a]).0 == mp[i].0;
            assert(lex_less(entry_ids(es)[a], entry_ids(es)[es.len() - 1]));
        }
        assert forall|i: int| 0 <= i < cp.len() implies lex_less(
            (#[trigger] cp[i]).0,
            es.last().0,
        ) by {
            lemma_due_content_at(p, now, cp[i]);
            assert(cp.contains(cp[i]));
            let a = choose|a: int| 0 <= a < p.len() && (#[trigger] p[a]).0 == cp[i].0;
            assert(lex_less(entry_ids(es)[a], entry_ids(es)[es.len() - 1]));
        }
        assert forall|i: int, j: int| 0 <= i < j < m.len() implies lex_less(
            (#[trigger] m[i]).0,
            (#[trigger] m[j]).0,
        ) by {
            assert(m[i] == mp[i]);
            if j < mp.len() {
                assert(m[j] == mp[j]);
            }
        }
        assert forall|i: int, j: int| 0 <= i < j < c.len() implies lex_less(
            (#[trigger] c[i]).0,
            (#[trigger] c[j]).0,
        ) by {
            assert(c[i] == cp[i]);
            if j < cp.len() {
                assert(c[j] == cp[j]);
            }
        }
    }
}

/// Of a list the first entries are given: as many as asked for, at least one, and all
/// where there are no more.
pub proof fn law_first_entries_are_a_prefix<T>(xs: Seq<T>, limit: nat)
    ensures
        first_entries(xs, limit).is_prefix_of(xs),
        limit > 0 ==> first_entries(xs, limit).len() <= limit,
        first_entries(xs, limit).len() >= limit || first_entries(xs, limit) == xs,
        xs.len() > 0 ==> first_entries(xs, limit).len() >= 1,
        limit == 0 ==> first_entries(xs, limit).len() <= 1,
{
}

// ---- trying again ----

/// Failing to send the changes of a row counts one more failure and sets the time of the
/// next try: not before a second has passed, and after a minute at the latest. Nothing
/// else of the row changes, and nothing of other rows.
pub proof fn law_failure_sets_the_next_try(
    d: DraftView,
    id: Seq<char>,
    retry_from: i64,
    now: i64,
    other: Seq<char>,
)
    requires
        d.wf(),
    ensures
        ({
            let before = state_of(d.nav_state, id);
            let failed = nav_failed(d, id, retry_from, now);
            let after = state_of(failed.nav_state, id);
            &&& failed.wf()
            &&& failed.title == d.title
            &&& lookup(failed.nav_state, id) is Some
            &&& other != id ==> lookup(failed.nav_state, other) == lookup(d.nav_state, other)
            &&& after.content == before.content
            &&& after.meta == before.meta
            &&& after.updated_ms == before.updated_ms
            &&& after.synced_ms == before.synced_ms
            &&& after.content_dirty == before.content_dirty
            &&& before.retry_count < u32::MAX ==> after.retry_count == before.retry_count + 1
            &&& before.retry_count == u32::MAX ==> after.retry_count == before.retry_count
            &&& after.next_retry_ms <= retry_from + 60_000
            &&& after.next_retry_ms >= retry_from + 1000 || after.next_retry_ms == i64::MAX
            &&& before.retry_count == 0 && retry_from + 2000 <= i64::MAX ==> after.next_retry_ms
                == retry_from + 2000
        }),
{
    let s = state_of(d.nav_state, id);
    let n = one_more(s.retry_count);
    let s1 = NavStateView {
        retry_count: n,
        next_retry_ms: after_delay(retry_from, retry_delay(n)),
        ..s
    };
    law_put_then_lookup(d.nav_state, id, s1, other);
    law_retry_delay_grows(n, n);
    law_retry_delay_doubles(0);
}

/// A changed place or state that could not be sent is to be sent again: at every time
/// from a minute after the failure on, as it was changed, and at no time within a second
/// after it.
pub proof fn law_failed_place_is_tried_again(
    d: DraftView,
    n: NavView,
    changed_ms: i64,
    retry_from: i64,
    failed_ms: i64,
    now: i64,
)
    requires
        d.wf(),
    ensures
        ({
            let failed = nav_failed(
                meta_touched(d, n, changed_ms),
                n.id,
                retry_from,
                failed_ms,
            ).nav_state;
            let meta = NavMetaView {
                parid: n.parid,
                same_deep_order: n.same_deep_order,
                is_display: n.is_display,
                is_delete: n.is_delete,
                properties: n.properties,
            };
            &&& now >= retry_from + 60_000 || now == i64::MAX ==> due_metas(failed, now).contains(
                (n.id, meta, changed_ms),
            )
            &&& now >= state_of(failed, n.id).next_retry_ms ==> due_metas(failed, now).contains(
                (n.id, meta, changed_ms),
            )
            &&& 0 <= retry_from && now < retry_from + 1000 && now < i64::MAX ==> forall|i: int|
                0 <= i < due_metas(failed, now).len() ==> (#[trigger] due_metas(failed, now)[i]).0
                    != n.id
        }),
{
    let changed = meta_touched(d, n, changed_ms);
    let s1 = NavStateView {
        meta: Some(meta_of(n)),
        updated_ms: changed_ms,
        ..state_of(d.nav_state, n.id)
    };
    law_put_then_lookup(d.nav_state, n.id, s1, n.id);
    law_failure_sets_the_next_try(changed, n.id, retry_from, failed_ms, n.id);
    let failed = nav_failed(changed, n.id, retry_from, failed_ms).nav_state;
    law_waiting_places_are_due(failed, n.id, meta_of(n), changed_ms, now);
    let due = due_metas(failed, now);
    if 0 <= retry_from && now < retry_from + 1000 && now < i64::MAX {
        assert forall|i: int| 0 <= i < due.len() implies (#[trigger] due[i]).0 != n.id by {
            law_waiting_places_are_due(failed, due[i].0, due[i].1, due[i].2, now);
            assert(due.contains(due[i]));
        }
    }
}

/// A changed text that could not be sent is to be sent again: at every time from a minute
/// after the failure on, as it was changed, and at no time within a second after it.
pub proof fn law_failed_text_is_tried_again(
    d: DraftView,
    id: Seq<char>,
    content: Seq<char>,
    changed_ms: i64,
    retry_from: i64,
    failed_ms: i64,
    now: i64,
)
    requires
        d.wf(),
        state_of(d.nav_state, id).synced_ms < changed_ms,
    ensures
        ({
            let failed = nav_failed(
                nav_touched(d, id, content, changed_ms),
                id,
                retry_from,
                failed_ms,
            ).nav_state;
            &&& now >= retry_from + 60_000 || now == i64::MAX ==> due_contents(
                failed,
                now,
            ).contains((id, content, changed_ms))
            &&& now >= state_of(failed, id).next_retry_ms ==> due_contents(failed, now).contains(
                (id, content, changed_ms),
            )
            &&& 0 <= retry_from && now < retry_from + 1000 && now < i64::MAX ==> forall|i: int|
                0 <= i < due_contents(failed, now).len() ==> (#[trigger] due_contents(
                    failed,
                    now,
                )[i]).0 != id
        }),
{
    let changed = nav_touched(d, id, content, changed_ms);
    let s1 = NavStateView {
        content,
        updated_ms: changed_ms,
        content_dirty: true,
        ..state_of(d.nav_state, id)
    };
    law_put_then_lookup(d.nav_state, id, s1, id);
    law_failure_sets_the_next_try(changed, id, retry_from, failed_ms, id);
    let failed = nav_failed(changed, id, retry_from, failed_ms).nav_state;
    law_waiting_texts_are_due(failed, id, content, changed_ms, now);
    let due = due_contents(failed, now);
    if 0 <= retry_from && now < retry_from + 1000 && now < i64::MAX {
        assert forall|i: int| 0 <= i < due.len() implies (#[trigger] due[i]).0 != id by {
            law_waiting_texts_are_due(failed, due[i].0, due[i].1, due[i].2, now);
            assert(due.contains(due[i]));
        }
    }
}

/// Once a change of a row was sent, earlier failures count no more: the next change of
/// the row is to be sent at once, at whatever time.
pub proof fn law_sent_row_starts_afresh(
    d: DraftView,
    n: NavView,
    sent_ms: i64,
    later_ms: i64,
    changed_ms: i64,
    now: i64,
)
    requires
        d.wf(),
        state_of(d.nav_state, n.id).synced_ms < changed_ms,
        sent_ms < changed_ms,
    ensures
        ({
            let text_sent = nav_synced(d, n.id, sent_ms, later_ms);
            let place_sent = meta_synced(d, n.id, later_ms);
            &&& due_contents(
                nav_touched(text_sent, n.id, n.content, changed_ms).nav_state,
                now,
            ).contains((n.id, n.content, changed_ms))
            &&& due_metas(meta_touched(place_sent, n, changed_ms).nav_state, now).contains(
                (n.id, meta_of(n), changed_ms),
            )
        }),
{
    let s = state_of(d.nav_state, n.id);
    let a = nav_synced(d, n.id, sent_ms, later_ms);
    let a1 = NavStateView {
        synced_ms: later(s.synced_ms, sent_ms),
        content_dirty: false,
        retry_count: 0,
        next_retry_ms: 0,
        ..s
    };
    law_put_then_lookup(d.nav_state, n.id, a1, n.id);
    let a2 = NavStateView {
        content: n.content,
        updated_ms: changed_ms,
        content_dirty: true,
        ..a1
    };
    law_put_then_lookup(a.nav_state, n.id, a2, n.id);
    law_waiting_texts_are_due(
        nav_touched(a, n.id, n.content, changed_ms).nav_state,
        n.id,
        n.content,
        changed_ms,
        now,
    );
    let b = meta_synced(d, n.id, later_ms);
    let b1 = NavStateView { meta: None, retry_count: 0, next_retry_ms: 0, ..s };
    law_put_then_lookup(d.nav_state, n.id, b1, n.id);
    let b2 = NavStateView { meta: Some(meta_of(n)), updated_ms: changed_ms, ..b1 };
    law_put_then_lookup(b.nav_state, n.id, b2, n.id);
    law_waiting_places_are_due(
        meta_touched(b, n, changed_ms).nav_state,
        n.id,
        meta_of(n),
        changed_ms,
        now,
    );
}

/// A changed title waits until the server has it as of the change or later. Failing to
/// send it loses nothing and sets the time of the next try, from a second to a minute
/// on. The rows are not touched by any of that.
pub proof fn law_title_waits_until_synced(
    d: DraftView,
    title: Seq<char>,
    changed_ms: i64,
    retry_from: i64,
    failed_ms: i64,
    sent_ms: i64,
    later_ms: i64,
)
    requires
        d.title matches Some(f) ==> f.synced_ms < changed_ms,
        0 < changed_ms,
    ensures
        ({
            let changed = title_touched(d, title, changed_ms);
            let failed = title_failed(changed, retry_from, failed_ms);
            let sent = title_synced(failed, sent_ms, later_ms);
            &&& !fully_synced(changed)
            &&& !fully_synced(failed)
            &&& failed.title matches Some(f) && f.value == title && f.updated_ms == changed_ms
                && f.next_retry_ms <= retry_from + 60_000 && (f.next_retry_ms >= retry_from + 1000
                || f.next_retry_ms == i64::MAX)
            &&& sent.title matches Some(f) && f.value == title && f.next_retry_ms == 0
                && f.retry_count == 0
            &&& sent.title matches Some(f) && (f.updated_ms > f.synced_ms <==> sent_ms < changed_ms)
            &&& sent.nav_state == d.nav_state
        }),
{
    let changed = title_touched(d, title, changed_ms);
    let n = one_more((changed.title->0).retry_count);
    law_retry_delay_grows(n, n);
}

// ---- what a change touches ----

/// Changing the text of a row leaves its place, what the server has of it and its count of
/// failures as they are, and so all other rows and the title. The draft is as new as the
/// change.
pub proof fn law_text_change_touches_nothing_else(
    d: DraftView,
    id: Seq<char>,
    content: Seq<char>,
    now: i64,
    other: Seq<char>,
)
    requires
        d.wf(),
    ensures
        ({
            let r = nav_touched(d, id, content, now);
            let before = state_of(d.nav_state, id);
            let after = state_of(r.nav_state, id);
            &&& r.wf()
            &&& r.updated_ms == now
            &&& r.title == d.title && r.db_id == d.db_id && r.note_id == d.note_id
            &&& other != id ==> lookup(r.nav_state, other) == lookup(d.nav_state, other)
            &&& after.content == content && after.updated_ms == now && after.content_dirty
            &&& after.meta == before.meta
            &&& after.synced_ms == before.synced_ms
            &&& after.retry_count == before.retry_count
            &&& after.next_retry_ms == before.next_retry_ms
        }),
{
    let s1 = NavStateView {
        content,
        updated_ms: now,
        content_dirty: true,
        ..state_of(d.nav_state, id)
    };
    law_put_then_lookup(d.nav_state, id, s1, other);
}

/// Changing the place and state of a row leaves its text, what the server has of it and
/// its count of failures as they are, and so all other rows and the title. The draft is
/// as new as the change.
pub proof fn law_place_change_touches_nothing_else(
    d: DraftView,
    n: NavView,
    now: i64,
    other: Seq<char>,
)
    requires
        d.wf(),
    ensures
        ({
            let r = meta_touched(d, n, now);
            let before = state_of(d.nav_state, n.id);
            let after = state_of(r.nav_state, n.id);
            &&& r.wf()
            &&& r.updated_ms == now
            &&& r.title == d.title && r.db_id == d.db_id && r.note_id == d.note_id
            &&& other != n.id ==> lookup(r.nav_state, other) == lookup(d.nav_state, other)
            &&& after.meta is Some && after.updated_ms == now
            &&& after.content == before.content && after.content_dirty == before.content_dirty
            &&& after.synced_ms == before.synced_ms
            &&& after.retry_count == before.retry_count
            &&& after.next_retry_ms == before.next_retry_ms
        }),
{
    let s1 = NavStateView {
        meta: Some(meta_of(n)),
        updated_ms: now,
        ..state_of(d.nav_state, n.id)
    };
    law_put_then_lookup(d.nav_state, n.id, s1, other);
}

/// Changing the title leaves what the server has of it and its count of failures as they
/// are, and so the rows. The draft is as new as the change.
pub proof fn law_title_change_touches_nothing_else(d: DraftView, title: Seq<char>, now: i64)
    ensures
        ({
            let r = title_touched(d, title, now);
            &&& r.updated_ms == now
            &&& r.nav_state == d.nav_state && r.db_id == d.db_id && r.note_id == d.note_id
            &&& r.title matches Some(f) && f.value == title && f.updated_ms == now
            &&& d.title matches Some(f) ==> (r.title->0).synced_ms == f.synced_ms && (
            r.title->0).retry_count == f.retry_count && (r.title->0).next_retry_ms
                == f.next_retry_ms
            &&& d.title is None ==> (r.title->0).synced_ms == 0 && (r.title->0).retry_count == 0
                && (r.title->0).next_retry_ms == 0
        }),
{
}

/// What the server has of a text is never taken back: it is the later of what it had and
/// what was sent. Sending a text, or a place, leaves all other rows and the title alone.
pub proof fn law_sending_touches_nothing_else(
    d: DraftView,
    id: Seq<char>,
    synced_ms: i64,
    now: i64,
    other: Seq<char>,
)
    requires
        d.wf(),
    ensures
        ({
            let text = nav_synced(d, id, synced_ms, now);
            let place = meta_synced(d, id, now);
            let before = state_of(d.nav_state, id);
            let after = state_of(text.nav_state, id);
            let placed = state_of(place.nav_state, id);
            &&& text.updated_ms == now && place.updated_ms == now
            &&& text.title == d.title && place.title == d.title
            &&& other != id ==> lookup(text.nav_state, other) == lookup(d.nav_state, other)
            &&& other != id ==> lookup(place.nav_state, other) == lookup(d.nav_state, other)
            &&& after.synced_ms >= before.synced_ms && after.synced_ms >= synced_ms
            &&& after.synced_ms == before.synced_ms || after.synced_ms == synced_ms
            &&& after.content == before.content && after.meta == before.meta && after.updated_ms
                == before.updated_ms && !after.content_dirty
            &&& placed.content == before.content && placed.meta is None && placed.updated_ms
                == before.updated_ms && placed.content_dirty == before.content_dirty
                && placed.synced_ms == before.synced_ms
            &&& after.retry_count == 0 && after.next_retry_ms == 0
            &&& placed.retry_count == 0 && placed.next_retry_ms == 0
        }),
{
    let s = state_of(d.nav_state, id);
    let s1 = NavStateView {
        synced_ms: later(s.synced_ms, synced_ms),
        content_dirty: false,
        retry_count: 0,
        next_retry_ms: 0,
        ..s
    };
    law_put_then_lookup(d.nav_state, id, s1, other);
    let s2 = NavStateView { meta: None, retry_count: 0, next_retry_ms: 0, ..s };
    law_put_then_lookup(d.nav_state, id, s2, other);
}

/// What the server has of the title is never taken back: it is the later of what it had
/// and what was sent.
pub proof fn law_sent_title_is_not_taken_back(d: DraftView, synced_ms: i64, now: i64)
    requires
        d.title is Some,
    ensures
        ({
            let r = title_synced(d, synced_ms, now);
            let before = d.title->0;
            let after = r.title->0;
            &&& r.title is Some
            &&& r.updated_ms == now
            &&& after.synced_ms >= before.synced_ms && after.synced_ms >= synced_ms
            &&& after.synced_ms == before.synced_ms || after.synced_ms == synced_ms
            &&& after.value == before.value && after.updated_ms == before.updated_ms
        }),
{
}

} // verus!
