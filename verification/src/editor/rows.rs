//! Reading and changing single rows of an outline.

use crate::models::{contains_str, find_nav, Nav};
use crate::text::is_blank_str;
use vstd::prelude::*;

verus! {

use crate::models::{lemma_nav_index, nav_index, nav_views, opt_view, str_views, NavView};
use crate::text::is_blank;

// ---- changing a row ----

/// The rows with the first one of an id replaced.
pub open spec fn with_row_at(navs: Seq<NavView>, id: Seq<char>, f: spec_fn(NavView) -> NavView) -> Seq<
    NavView,
> {
    match nav_index(navs, id) {
        Some(i) => navs.update(i, f(navs[i])),
        None => navs,
    }
}

/// The rows with a text put in one of them.
pub open spec fn with_content(navs: Seq<NavView>, id: Seq<char>, content: Seq<char>) -> Seq<NavView> {
    with_row_at(navs, id, |n: NavView| NavView { content, ..n })
}

/// The rows with one of them opened or closed.
pub open spec fn with_display(navs: Seq<NavView>, id: Seq<char>, is_display: bool) -> Seq<NavView> {
    with_row_at(navs, id, |n: NavView| NavView { is_display, ..n })
}

/// The rows with one of them put elsewhere.
pub open spec fn with_place(
    navs: Seq<NavView>,
    id: Seq<char>,
    parid: Seq<char>,
    same_deep_order: int,
) -> Seq<NavView> {
    with_row_at(navs, id, |n: NavView| NavView { parid, same_deep_order, ..n })
}

/// The rows with another order number for one of them.
pub open spec fn with_order(navs: Seq<NavView>, id: Seq<char>, same_deep_order: int) -> Seq<NavView> {
    with_row_at(navs, id, |n: NavView| NavView { same_deep_order, ..n })
}

/// Puts a text in a row. Tells whether there is such a row.
pub fn apply_nav_content(navs: &mut [Nav], nav_id: &str, content: &str) -> (r: bool)
    ensures
        nav_views(final(navs)@) == with_content(nav_views(old(navs)@), nav_id@, content@),
        r == (nav_index(nav_views(old(navs)@), nav_id@) is Some),
{
    match find_nav(navs, nav_id) {
        Some(i) => {
            let mut n = navs[i].clone();
            n.content = content.to_string();
            let ghost vs = nav_views(navs@);
            let ghost nv = n@;
            navs[i] = n;
            assert(nav_views(navs@) =~= vs.update(i as int, nv));
            true
        },
        None => false,
    }
}

/// Opens or closes a row. Tells whether there is such a row.
pub fn apply_nav_display(navs: &mut [Nav], nav_id: &str, is_display: bool) -> (r: bool)
    ensures
        nav_views(final(navs)@) == with_display(nav_views(old(navs)@), nav_id@, is_display),
        r == (nav_index(nav_views(old(navs)@), nav_id@) is Some),
{
    match find_nav(navs, nav_id) {
        Some(i) => {
            let mut n = navs[i].clone();
            n.is_display = is_display;
            let ghost vs = nav_views(navs@);
            let ghost nv = n@;
            navs[i] = n;
            assert(nav_views(navs@) =~= vs.update(i as int, nv));
            true
        },
        None => false,
    }
}

/// Puts a row elsewhere. Tells whether there is such a row.
pub fn apply_nav_place(navs: &mut [Nav], nav_id: &str, parid: &str, same_deep_order: i32) -> (r: bool)
    ensures
        nav_views(final(navs)@) == with_place(
            nav_views(old(navs)@),
            nav_id@,
            parid@,
            same_deep_order as int,
        ),
        r == (nav_index(nav_views(old(navs)@), nav_id@) is Some),
{
    match find_nav(navs, nav_id) {
        Some(i) => {
            let mut n = navs[i].clone();
            n.parid = parid.to_string();
            n.same_deep_order = same_deep_order;
            let ghost vs = nav_views(navs@);
            let ghost nv = n@;
            navs[i] = n;
            assert(nav_views(navs@) =~= vs.update(i as int, nv));
            true
        },
        None => false,
    }
}

/// Gives a row another order number. Tells whether there is such a row.
pub fn apply_nav_order(navs: &mut [Nav], nav_id: &str, same_deep_order: i32) -> (r: bool)
    ensures
        nav_views(final(navs)@) == with_order(nav_views(old(navs)@), nav_id@, same_deep_order as int),
        r == (nav_index(nav_views(old(navs)@), nav_id@) is Some),
{
    match find_nav(navs, nav_id) {
        Some(i) => {
            let mut n = navs[i].clone();
            n.same_deep_order = same_deep_order;
            let ghost vs = nav_views(navs@);
            let ghost nv = n@;
            navs[i] = n;
            assert(nav_views(navs@) =~= vs.update(i as int, nv));
            true
        },
        None => false,
    }
}

// ---- reading a row ----

/// The text of a row.
pub open spec fn content_of(navs: Seq<NavView>, id: Seq<char>) -> Option<Seq<char>> {
    match nav_index(navs, id) {
        Some(i) => Some(navs[i].content),
        None => None,
    }
}

/// The text of a row.
pub fn get_nav_content(navs: &[Nav], nav_id: &str) -> (r: Option<String>)
    ensures
        opt_view(r) == content_of(nav_views(navs@), nav_id@),
{
    match find_nav(navs, nav_id) {
        Some(i) => Some(navs[i].content.clone()),
        None => None,
    }
}

/// The text of a row, or another where there is no such row.
pub fn row_display_content(navs: &[Nav], nav_id: &str, fallback: &str) -> (r: String)
    ensures
        r@ == (match content_of(nav_views(navs@), nav_id@) {
            Some(c) => c,
            None => fallback@,
        }),
{
    match find_nav(navs, nav_id) {
        Some(i) => navs[i].content.clone(),
        None => fallback.to_string(),
    }
}

/// A read gives back what was written last, and what is written to one row leaves the
/// others as they are.
pub proof fn law_content_read_after_write(
    navs: Seq<NavView>,
    id: Seq<char>,
    other: Seq<char>,
    content: Seq<char>,
)
    ensures
        nav_index(navs, id) is Some ==> content_of(with_content(navs, id, content), id) == Some(
            content,
        ),
        other != id ==> content_of(with_content(navs, id, content), other) == content_of(
            navs,
            other,
        ),
        with_content(navs, id, content).len() == navs.len(),
{
    lemma_nav_index(navs, id);
    lemma_nav_index(navs, other);
    let w = with_content(navs, id, content);
    lemma_nav_index(w, id);
    lemma_nav_index(w, other);
    if let Some(i) = nav_index(navs, id) {
        assert forall|j: int| 0 <= j < w.len() implies (#[trigger] w[j]).id == navs[j].id by {}
        assert(w[i].content == content);
        lemma_same_ids(navs, w, id);
        lemma_same_ids(navs, w, other);
    }
}

/// The place of an id hangs on the ids alone.
pub proof fn lemma_same_ids(a: Seq<NavView>, b: Seq<NavView>, id: Seq<char>)
    requires
        a.len() == b.len(),
        forall|j: int| 0 <= j < a.len() ==> (#[trigger] b[j]).id == a[j].id,
    ensures
        nav_index(a, id) == nav_index(b, id),
    decreases a.len(),
{
    if a.len() > 0 {
        let p = a.drop_last();
        let q = b.drop_last();
        assert forall|j: int| 0 <= j < p.len() implies (#[trigger] q[j]).id == p[j].id by {
            assert(b[j].id == a[j].id);
        }
        lemma_same_ids(p, q, id);
        assert(b[b.len() - 1].id == a[a.len() - 1].id);
    }
}

// ---- taking rows out ----

/// The rows without those whose id is in a list.
pub open spec fn without_ids(navs: Seq<NavView>, ids: Seq<Seq<char>>) -> Seq<NavView>
    decreases navs.len(),
{
    if navs.len() == 0 {
        navs
    } else {
        let rest = without_ids(navs.drop_last(), ids);
        if ids.contains(navs.last().id) {
            rest
        } else {
            rest.push(navs.last())
        }
    }
}

/// Takes out the rows whose id is in a list.
pub fn remove_navs(navs: &[Nav], ids: &[String]) -> (r: Vec<Nav>)
    ensures
        nav_views(r@) == without_ids(nav_views(navs@), str_views(ids@)),
{
    let mut out: Vec<Nav> = Vec::new();
    let mut i: usize = 0;
    let ghost vs = nav_views(navs@);
    let ghost gone = str_views(ids@);
    assert(nav_views(out@) =~= without_ids(vs.take(0), gone));
    while i < navs.len()
        invariant
            i <= navs@.len(),
            vs == nav_views(navs@),
            gone == str_views(ids@),
            nav_views(out@) == without_ids(vs.take(i as int), gone),
        decreases navs@.len() - i,
    {
        proof {
            assert(vs.take(i + 1).drop_last() =~= vs.take(i as int));
            assert(vs.take(i + 1).last() == navs@[i as int]@);
        }
        let ghost before = out@;
        if !contains_str(ids, navs[i].id.as_str()) {
            out.push(navs[i].clone());
            assert(nav_views(out@) =~= nav_views(before).push(navs@[i as int]@));
        }
        i = i + 1;
    }
    assert(vs.take(i as int) =~= vs);
    out
}

// ---- rows from two sources ----

/// The server's rows, and behind them the rows of a snapshot that the server does not
/// have and of which local changes wait to be sent.
pub open spec fn merged(
    server: Seq<NavView>,
    snapshot: Seq<NavView>,
    pending: Seq<Seq<char>>,
) -> Seq<NavView>
    decreases snapshot.len(),
{
    if snapshot.len() == 0 {
        server
    } else {
        let m = merged(server, snapshot.drop_last(), pending);
        let n = snapshot.last();
        if pending.contains(n.id) && nav_index(m, n.id) is None {
            m.push(n)
        } else {
            m
        }
    }
}

/// Adds to the server's rows those of a snapshot that wait to be sent.
pub fn merge_server_with_pending_snapshot(
    server_navs: Vec<Nav>,
    snapshot_navs: Option<Vec<Nav>>,
    pending_ids: &[String],
) -> (r: Vec<Nav>)
    ensures
        nav_views(r@) == (match snapshot_navs {
            Some(snapshot) => merged(
                nav_views(server_navs@),
                nav_views(snapshot@),
                str_views(pending_ids@),
            ),
            None => nav_views(server_navs@),
        }),
{
    let ghost server = nav_views(server_navs@);
    let ghost pending = str_views(pending_ids@);
    let mut out = server_navs;
    match snapshot_navs {
        None => out,
        Some(snapshot) => {
            let ghost vs = nav_views(snapshot@);
            let mut i: usize = 0;
            assert(vs.take(0) =~= Seq::<NavView>::empty());
            while i < snapshot.len()
                invariant
                    i <= snapshot@.len(),
                    vs == nav_views(snapshot@),
                    pending == str_views(pending_ids@),
                    nav_views(out@) == merged(server, vs.take(i as int), pending),
                decreases snapshot@.len() - i,
            {
                proof {
                    assert(vs.take(i + 1).drop_last() =~= vs.take(i as int));
                    assert(vs.take(i + 1).last() == snapshot@[i as int]@);
                }
                let ghost before = out@;
                if contains_str(pending_ids, snapshot[i].id.as_str()) {
                    let known = find_nav(out.as_slice(), snapshot[i].id.as_str());
                    if known.is_none() {
                        out.push(snapshot[i].clone());
                        assert(nav_views(out@) =~= nav_views(before).push(snapshot@[i as int]@));
                    }
                }
                i = i + 1;
            }
            assert(vs.take(i as int) =~= vs);
            out
        },
    }
}

/// Merging keeps the server's rows as they are and in front. What it adds are rows of
/// the snapshot that wait to be sent and that the server does not have, and every such
/// row is then there.
pub proof fn law_merge_adds_pending_rows_only(
    server: Seq<NavView>,
    snapshot: Seq<NavView>,
    pending: Seq<Seq<char>>,
)
    ensures
        ({
            let m = merged(server, snapshot, pending);
            &&& m.len() >= server.len()
            &&& m.take(server.len() as int) == server
            &&& forall|k: int|
                server.len() <= k < m.len() ==> pending.contains((#[trigger] m[k]).id)
                    && snapshot.contains(m[k]) && nav_index(server, m[k].id) is None
            &&& forall|k: int|
                0 <= k < snapshot.len() && pending.contains((#[trigger] snapshot[k]).id)
                    ==> nav_index(m, snapshot[k].id) is Some
        }),
    decreases snapshot.len(),
{
    let m = merged(server, snapshot, pending);
    if snapshot.len() == 0 {
        assert(m.take(server.len() as int) =~= server);
    } else {
        let p = snapshot.drop_last();
        let n = snapshot.last();
        law_merge_adds_pending_rows_only(server, p, pending);
        let mp = merged(server, p, pending);
        assert(m.take(server.len() as int) =~= mp.take(server.len() as int));
        assert(snapshot[snapshot.len() - 1] == n);
        assert forall|k: int| server.len() <= k < m.len() implies pending.contains(
            (#[trigger] m[k]).id,
        ) && snapshot.contains(m[k]) && nav_index(server, m[k].id) is None by {
            if k < mp.len() {
                assert(m[k] == mp[k]);
                assert(p.contains(mp[k]));
                let j = choose|j: int| 0 <= j < p.len() && p[j] == mp[k];
                assert(snapshot[j] == m[k]);
            } else {
                assert(m[k] == n);
                lemma_nav_index(mp, n.id);
                lemma_nav_index(server, n.id);
                if let Some(i) = nav_index(server, n.id) {
                    assert(mp.take(server.len() as int)[i] == mp[i]);
                    assert(mp[i].id == n.id);
                }
            }
        }
        assert forall|k: int|
            0 <= k < snapshot.len() && pending.contains(
                (#[trigger] snapshot[k]).id,
            ) implies nav_index(m, snapshot[k].id) is Some by {
            let id = snapshot[k].id;
            lemma_nav_index(m, id);
            lemma_nav_index(mp, id);
            if k < p.len() {
                assert(p[k] == snapshot[k]);
                let i = nav_index(mp, id)->0;
                assert(m[i] == mp[i]);
                assert(m[i].id == id);
            } else if nav_index(mp, id) is None {
                assert(m[m.len() - 1].id == id);
            }
        }
    }
}

// ---- editing state and rows ----

/// Whether an edited row is gone.
pub fn should_clear_stale_editing_id(editing_id: Option<&str>, navs: &[Nav]) -> (r: bool)
    ensures
        r == (editing_id matches Some(id) && nav_index(nav_views(navs@), id@) is None),
{
    match editing_id {
        None => false,
        Some(current) => {
            let found = find_nav(navs, current);
            found.is_none()
        },
    }
}

/// A request to create or change a row on the server. What is absent is left as it is.
#[derive(Debug, PartialEq, Eq)]
pub struct CreateOrUpdateNavRequest {
    pub note_id: String,
    pub id: Option<String>,
    pub parid: Option<String>,
    pub content: Option<String>,
    pub order: Option<i32>,
    pub is_display: Option<bool>,
    pub is_delete: Option<bool>,
    pub properties: Option<String>,
}

/// A request that sends the text of a row that the server has just made. There is none
/// for a blank text.
pub fn backfill_content_request(note_id: &str, real_id: &str, content_now: &str) -> (r: Option<
    CreateOrUpdateNavRequest,
>)
    ensures
        match r {
            None => is_blank(content_now@),
            Some(req) => {
                &&& !is_blank(content_now@)
                &&& req.note_id@ == note_id@
                &&& opt_view(req.id) == Some(real_id@)
                &&& opt_view(req.content) == Some(content_now@)
                &&& req.parid is None
                &&& req.order is None
                &&& req.is_display is None
                &&& req.is_delete is None
                &&& req.properties is None
            },
        },
{
    if is_blank_str(content_now) {
        return None;
    }
    Some(
        CreateOrUpdateNavRequest {
            note_id: note_id.to_string(),
            id: Some(real_id.to_string()),
            parid: None,
            content: Some(content_now.to_string()),
            order: None,
            is_display: None,
            is_delete: None,
            properties: None,
        },
    )
}

} // verus!
