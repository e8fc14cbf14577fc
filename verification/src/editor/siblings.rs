//! Rows with the same parent, and the order in which they stand.

use crate::models::Nav;
use crate::text::{str_eq, str_less};
use vstd::prelude::*;

verus! {

use vstd::multiset::group_multiset_axioms;
use vstd::seq_lib::group_to_multiset_ensures;

use crate::models::{nav_views, NavView};
use crate::text::{lemma_lex_irreflexive, lemma_lex_total, lemma_lex_transitive, lex_less};

// ---- which rows stand together ----

/// The rows with a given parent, as they come. Deleted ones are left out, unless they
/// are asked for.
pub open spec fn children_of(
    navs: Seq<NavView>,
    parid: Seq<char>,
    with_deleted: bool,
) -> Seq<NavView>
    decreases navs.len(),
{
    if navs.len() == 0 {
        navs
    } else {
        let rest = children_of(navs.drop_last(), parid, with_deleted);
        let n = navs.last();
        if n.parid == parid && (with_deleted || !n.is_delete) {
            rest.push(n)
        } else {
            rest
        }
    }
}

/// The rows, as they come, without those with a given id.
pub open spec fn without_id(navs: Seq<NavView>, id: Seq<char>) -> Seq<NavView>
    decreases navs.len(),
{
    if navs.len() == 0 {
        navs
    } else {
        let rest = without_id(navs.drop_last(), id);
        if navs.last().id == id {
            rest
        } else {
            rest.push(navs.last())
        }
    }
}

/// What `children_of` holds: the rows asked for and no others.
pub proof fn lemma_children_of(navs: Seq<NavView>, parid: Seq<char>, with_deleted: bool)
    ensures
        ({
            let r = children_of(navs, parid, with_deleted);
            &&& r.len() <= navs.len()
            &&& forall|i: int|
                0 <= i < r.len() ==> (#[trigger] r[i]).parid == parid && (with_deleted
                    || !r[i].is_delete) && navs.contains(r[i])
            &&& forall|i: int|
                0 <= i < navs.len() && (#[trigger] navs[i]).parid == parid && (with_deleted
                    || !navs[i].is_delete) ==> r.contains(navs[i])
        }),
    decreases navs.len(),
{
    if navs.len() > 0 {
        let p = navs.drop_last();
        let n = navs.last();
        lemma_children_of(p, parid, with_deleted);
        let rp = children_of(p, parid, with_deleted);
        let r = children_of(navs, parid, with_deleted);
        assert forall|i: int| 0 <= i < r.len() implies (#[trigger] r[i]).parid == parid && (
        with_deleted || !r[i].is_delete) && navs.contains(r[i]) by {
            if i < rp.len() {
                assert(r[i] == rp[i]);
                assert(p.contains(rp[i]));
                let j = choose|j: int| 0 <= j < p.len() && p[j] == rp[i];
                assert(navs[j] == rp[i]);
            } else {
                assert(navs[navs.len() - 1] == n);
            }
        }
        assert forall|i: int|
            0 <= i < navs.len() && (#[trigger] navs[i]).parid == parid && (with_deleted
                || !navs[i].is_delete) implies r.contains(navs[i]) by {
            if i < p.len() {
                assert(p[i] == navs[i]);
                assert(rp.contains(p[i]));
                let j = choose|j: int| 0 <= j < rp.len() && rp[j] == p[i];
                assert(r[j] == navs[i]);
            } else {
                assert(r[r.len() - 1] == n);
            }
        }
    }
}

// ---- the order of rows ----

/// Whether row `b` may stand behind row `a`. Rows of one rank may stand in either
/// order, unless their ids decide.
pub open spec fn may_follow(a: NavView, b: NavView, by_id: bool) -> bool {
    a.same_deep_order < b.same_deep_order || (a.same_deep_order == b.same_deep_order && !(by_id
        && lex_less(b.id, a.id)))
}

/// The rows with one more put in, as far back as its rank asks.
pub open spec fn put_in(rows: Seq<NavView>, n: NavView, by_id: bool) -> Seq<NavView>
    decreases rows.len(),
{
    if rows.len() == 0 || may_follow(rows.last(), n, by_id) {
        rows.push(n)
    } else {
        put_in(rows.drop_last(), n, by_id).push(rows.last())
    }
}

/// The rows by rank. Where ids do not decide, rows of one rank stay as they come.
pub open spec fn ranked(rows: Seq<NavView>, by_id: bool) -> Seq<NavView>
    decreases rows.len(),
{
    if rows.len() == 0 {
        rows
    } else {
        put_in(ranked(rows.drop_last(), by_id), rows.last(), by_id)
    }
}

/// Whether no row stands behind one that it may not follow.
pub open spec fn in_order(rows: Seq<NavView>, by_id: bool) -> bool {
    forall|i: int, j: int| 0 <= i < j < rows.len() ==> may_follow(rows[i], rows[j], by_id)
}

proof fn lemma_may_follow_transitive(a: NavView, b: NavView, c: NavView, by_id: bool)
    requires
        may_follow(a, b, by_id),
        may_follow(b, c, by_id),
    ensures
        may_follow(a, c, by_id),
{
    if by_id && a.same_deep_order == c.same_deep_order {
        lemma_lex_total(a.id, b.id);
        lemma_lex_total(b.id, c.id);
        lemma_lex_total(a.id, c.id);
        if lex_less(c.id, a.id) {
            if lex_less(a.id, b.id) {
                lemma_lex_transitive(c.id, a.id, b.id);
            }
        }
    }
}

proof fn lemma_may_follow_total(a: NavView, b: NavView, by_id: bool)
    ensures
        may_follow(a, b, by_id) || may_follow(b, a, by_id),
{
    if lex_less(a.id, b.id) && lex_less(b.id, a.id) {
        lemma_lex_transitive(a.id, b.id, a.id);
        lemma_lex_irreflexive(a.id);
    }
}

proof fn lemma_put_in(rows: Seq<NavView>, n: NavView, by_id: bool)
    requires
        in_order(rows, by_id),
    ensures
        in_order(put_in(rows, n, by_id), by_id),
        put_in(rows, n, by_id).len() == rows.len() + 1,
        put_in(rows, n, by_id).to_multiset() =~= rows.to_multiset().insert(n),
    decreases rows.len(),
{
    broadcast use group_to_multiset_ensures;
    broadcast use group_multiset_axioms;

    let r = put_in(rows, n, by_id);
    if rows.len() == 0 || may_follow(rows.last(), n, by_id) {
        assert forall|i: int, j: int| 0 <= i < j < r.len() implies may_follow(
            r[i],
            r[j],
            by_id,
        ) by {
            if j == rows.len() && i < rows.len() - 1 {
                assert(may_follow(rows[i], rows[rows.len() - 1], by_id));
                lemma_may_follow_transitive(rows[i], rows.last(), n, by_id);
            }
        }
    } else {
        let p = rows.drop_last();
        lemma_put_in(p, n, by_id);
        lemma_may_follow_total(rows.last(), n, by_id);
        let q = put_in(p, n, by_id);
        assert forall|i: int, j: int| 0 <= i < j < r.len() implies may_follow(
            r[i],
            r[j],
            by_id,
        ) by {
            if j == q.len() {
                // Every row of `q` is `n` or a row of `rows` before the last.
                assert(q.contains(q[i]));
                assert(q.to_multiset().count(q[i]) > 0);
                if q[i] != n {
                    assert(p.to_multiset().count(q[i]) > 0);
                    assert(p.contains(q[i]));
                    let k = choose|k: int| 0 <= k < p.len() && p[k] == q[i];
                    assert(may_follow(rows[k], rows[rows.len() - 1], by_id));
                }
            } else {
                assert(may_follow(q[i], q[j], by_id));
            }
        }
        assert(p.push(rows.last()) =~= rows);
        assert(r.to_multiset() =~= q.to_multiset().insert(rows.last()));
        assert(rows.to_multiset() =~= p.to_multiset().insert(rows.last()));
    }
}

/// Ranking rows changes nothing but their places, and puts none behind one that it
/// may not follow.
pub proof fn law_ranked_is_in_order(rows: Seq<NavView>, by_id: bool)
    ensures
        in_order(ranked(rows, by_id), by_id),
        ranked(rows, by_id).len() == rows.len(),
        ranked(rows, by_id).to_multiset() =~= rows.to_multiset(),
    decreases rows.len(),
{
    broadcast use group_to_multiset_ensures;

    if rows.len() > 0 {
        let p = rows.drop_last();
        law_ranked_is_in_order(p, by_id);
        lemma_put_in(ranked(p, by_id), rows.last(), by_id);
        assert(p.push(rows.last()) =~= rows);
        assert(rows.to_multiset() =~= p.to_multiset().insert(rows.last()));
    }
}

/// The rows of one rank, as they come.
pub open spec fn of_rank(rows: Seq<NavView>, rank: int) -> Seq<NavView>
    decreases rows.len(),
{
    if rows.len() == 0 {
        rows
    } else if rows.last().same_deep_order == rank {
        of_rank(rows.drop_last(), rank).push(rows.last())
    } else {
        of_rank(rows.drop_last(), rank)
    }
}

proof fn lemma_put_in_keeps_rank(rows: Seq<NavView>, n: NavView, rank: int)
    ensures
        of_rank(put_in(rows, n, false), rank) == of_rank(rows.push(n), rank),
    decreases rows.len(),
{
    if rows.len() > 0 && !may_follow(rows.last(), n, false) {
        let p = rows.drop_last();
        lemma_put_in_keeps_rank(p, n, rank);
        let r = put_in(rows, n, false);
        assert(r.drop_last() =~= put_in(p, n, false));
        assert(rows.push(n).drop_last() =~= rows);
        assert(p.push(n).drop_last() =~= p);
        assert(rows.push(n).last() == n && p.push(n).last() == n);
        assert(r.last() == rows.last());
        assert(of_rank(r, rank) == (if rows.last().same_deep_order == rank {
            of_rank(p.push(n), rank).push(rows.last())
        } else {
            of_rank(p.push(n), rank)
        }));
        reveal_with_fuel(of_rank, 3);
    }
}

/// Ranking rows by rank alone keeps rows of one rank in the order in which they came.
pub proof fn law_ranked_is_stable(rows: Seq<NavView>, rank: int)
    ensures
        of_rank(ranked(rows, false), rank) == of_rank(rows, rank),
    decreases rows.len(),
{
    if rows.len() > 0 {
        let p = rows.drop_last();
        law_ranked_is_stable(p, rank);
        lemma_put_in_keeps_rank(ranked(p, false), rows.last(), rank);
        let q = ranked(p, false);
        assert(q.push(rows.last()).drop_last() =~= q);
    }
}

/// Whether a row is among the ranked rows, exactly if it is among the rows.
pub proof fn lemma_ranked_contains(rows: Seq<NavView>, by_id: bool, n: NavView)
    ensures
        ranked(rows, by_id).contains(n) == rows.contains(n),
{
    broadcast use group_to_multiset_ensures;

    law_ranked_is_in_order(rows, by_id);
    assert(ranked(rows, by_id).to_multiset().count(n) == rows.to_multiset().count(n));
}

fn may_follow_of(a: &Nav, b: &Nav, by_id: bool) -> (r: bool)
    ensures
        r == may_follow(a@, b@, by_id),
{
    a.same_deep_order < b.same_deep_order || (a.same_deep_order == b.same_deep_order && !(by_id
        && str_less(b.id.as_str(), a.id.as_str())))
}

/// Puts a row in, as far back as its rank asks.
fn put_in_of(rows: &mut Vec<Nav>, n: Nav, by_id: bool)
    ensures
        nav_views(final(rows)@) == put_in(nav_views(old(rows)@), n@, by_id),
{
    let ghost vs = nav_views(rows@);
    let mut j: usize = rows.len();
    proof {
        assert(vs.take(j as int) =~= vs);
        assert(put_in(vs, n@, by_id) + vs.skip(j as int) =~= put_in(vs, n@, by_id));
    }
    while j > 0 && !may_follow_of(&rows[j - 1], &n, by_id)
        invariant
            j <= rows@.len(),
            vs == nav_views(rows@),
            put_in(vs.take(j as int), n@, by_id) + vs.skip(j as int) == put_in(vs, n@, by_id),
        decreases j,
    {
        proof {
            let t = vs.take(j as int);
            assert(t.drop_last() =~= vs.take(j - 1));
            assert(t.last() == rows@[j - 1]@);
            let u = put_in(vs.take(j - 1), n@, by_id);
            assert(u.push(t.last()) + vs.skip(j as int) =~= u + vs.skip(j - 1));
        }
        j = j - 1;
    }
    proof {
        let t = vs.take(j as int);
        if j > 0 {
            assert(t.last() == rows@[j - 1]@);
        }
        assert(put_in(t, n@, by_id) == t.push(n@));
    }
    let ghost n_view = n@;
    rows.insert(j, n);
    assert(nav_views(rows@) =~= vs.take(j as int).push(n_view) + vs.skip(j as int));
}

/// Puts rows in the order of their ranks.
pub fn rank_rows(navs: Vec<Nav>, by_id: bool) -> (r: Vec<Nav>)
    ensures
        nav_views(r@) == ranked(nav_views(navs@), by_id),
{
    let mut out: Vec<Nav> = Vec::new();
    let mut i: usize = 0;
    let ghost vs = nav_views(navs@);
    assert(nav_views(out@) =~= ranked(vs.take(0), by_id));
    while i < navs.len()
        invariant
            i <= navs@.len(),
            vs == nav_views(navs@),
            nav_views(out@) == ranked(vs.take(i as int), by_id),
        decreases navs@.len() - i,
    {
        proof {
            assert(vs.take(i + 1).drop_last() =~= vs.take(i as int));
            assert(vs.take(i + 1).last() == navs@[i as int]@);
        }
        put_in_of(&mut out, navs[i].clone(), by_id);
        i = i + 1;
    }
    assert(vs.take(i as int) =~= vs);
    out
}

/// Puts rows in the order of their ranks. Those of one rank stay as they are.
pub fn sort_navs_by_same_deep_order(navs: &mut Vec<Nav>)
    ensures
        nav_views(final(navs)@) == ranked(nav_views(old(navs)@), false),
{
    let mut rows: Vec<Nav> = Vec::new();
    std::mem::swap(&mut rows, navs);
    *navs = rank_rows(rows, false);
}

/// The rows with a given parent, as they come.
pub fn collect_children(navs: &[Nav], parid: &str, with_deleted: bool) -> (r: Vec<Nav>)
    ensures
        nav_views(r@) == children_of(nav_views(navs@), parid@, with_deleted),
{
    let mut out: Vec<Nav> = Vec::new();
    let mut i: usize = 0;
    let ghost vs = nav_views(navs@);
    assert(nav_views(out@) =~= children_of(vs.take(0), parid@, with_deleted));
    while i < navs.len()
        invariant
            i <= navs@.len(),
            vs == nav_views(navs@),
            nav_views(out@) == children_of(vs.take(i as int), parid@, with_deleted),
        decreases navs@.len() - i,
    {
        proof {
            assert(vs.take(i + 1).drop_last() =~= vs.take(i as int));
            assert(vs.take(i + 1).last() == navs@[i as int]@);
        }
        let ghost before = out@;
        if str_eq(navs[i].parid.as_str(), parid) && (with_deleted || !navs[i].is_delete) {
            out.push(navs[i].clone());
            assert(nav_views(out@) =~= nav_views(before).push(navs@[i as int]@));
        }
        i = i + 1;
    }
    assert(vs.take(i as int) =~= vs);
    out
}

/// The rows, as they come, without those with a given id.
pub fn remove_id(navs: Vec<Nav>, id: &str) -> (r: Vec<Nav>)
    ensures
        nav_views(r@) == without_id(nav_views(navs@), id@),
{
    let mut out: Vec<Nav> = Vec::new();
    let mut i: usize = 0;
    let ghost vs = nav_views(navs@);
    assert(nav_views(out@) =~= without_id(vs.take(0), id@));
    while i < navs.len()
        invariant
            i <= navs@.len(),
            vs == nav_views(navs@),
            nav_views(out@) == without_id(vs.take(i as int), id@),
        decreases navs@.len() - i,
    {
        proof {
            assert(vs.take(i + 1).drop_last() =~= vs.take(i as int));
            assert(vs.take(i + 1).last() == navs@[i as int]@);
        }
        let ghost before = out@;
        if !str_eq(navs[i].id.as_str(), id) {
            out.push(navs[i].clone());
            assert(nav_views(out@) =~= nav_views(before).push(navs@[i as int]@));
        }
        i = i + 1;
    }
    assert(vs.take(i as int) =~= vs);
    out
}

/// The rows with a given parent by rank.
pub open spec fn ranked_children(
    navs: Seq<NavView>,
    parid: Seq<char>,
    with_deleted: bool,
) -> Seq<NavView> {
    ranked(children_of(navs, parid, with_deleted), false)
}

/// The rows with a given parent by rank.
pub fn sorted_children(navs: &[Nav], parid: &str, with_deleted: bool) -> (r: Vec<Nav>)
    ensures
        nav_views(r@) == ranked_children(nav_views(navs@), parid@, with_deleted),
{
    rank_rows(collect_children(navs, parid, with_deleted), false)
}

} // verus!
