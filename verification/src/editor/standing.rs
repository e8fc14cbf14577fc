//! Where a row stands among its siblings once it has its place.

use vstd::prelude::*;

verus! {

use crate::editor::forest::ids_ok;
use crate::editor::ordering::{lies_by, makes};
use crate::editor::placement::{
    behind_rule, first_rank_above, highest_rank, indent_target, last_id_below, left_target,
    move_rule, outdent_target, reorder_target, right_target, sibling_after_rule,
};
use crate::editor::rows::{with_order, with_place};
use crate::editor::siblings::{
    children_of, in_order, law_ranked_is_in_order, lemma_children_of, lemma_ranked_contains,
    may_follow, put_in, ranked, ranked_children, without_id,
};
use crate::editor::tree::root_id;
use crate::editor::visible::{distinct, lemma_children_distinct, lemma_ranked_distinct};
use crate::models::{
    lemma_nav_index, lemma_nav_index_is, nav_index, NavView, ROOT_CONTAINER_PARENT_ID,
};
use crate::text::{lemma_lex_irreflexive, lemma_lex_total, lemma_lex_transitive, lex_less};

/// Whether the ranks of rows are such as rows can have.
pub open spec fn ranks_fit(navs: Seq<NavView>) -> bool {
    forall|i: int|
        0 <= i < navs.len() ==> i32::MIN <= (#[trigger] navs[i]).same_deep_order <= i32::MAX
}

// ---- rows without one of them ----

/// What `without_id` holds: the rows with other ids and no others.
pub proof fn lemma_without_id(rows: Seq<NavView>, id: Seq<char>)
    ensures
        forall|j: int|
            0 <= j < without_id(rows, id).len() ==> (#[trigger] without_id(rows, id)[j]).id != id
                && rows.contains(without_id(rows, id)[j]),
        forall|i: int|
            0 <= i < rows.len() && (#[trigger] rows[i]).id != id ==> without_id(rows, id).contains(
                rows[i],
            ),
    decreases rows.len(),
{
    if rows.len() > 0 {
        let p = rows.drop_last();
        lemma_without_id(p, id);
        let q = without_id(p, id);
        let r = without_id(rows, id);
        assert forall|j: int| 0 <= j < r.len() implies (#[trigger] r[j]).id != id && rows.contains(
            r[j],
        ) by {
            if j < q.len() {
                assert(r[j] == q[j]);
                let i = choose|i: int| 0 <= i < p.len() && p[i] == q[j];
                assert(rows[i] == q[j]);
            } else {
                assert(rows[rows.len() - 1] == r[j]);
            }
        }
        assert forall|i: int| 0 <= i < rows.len() && (#[trigger] rows[i]).id != id implies r.contains(
            rows[i],
        ) by {
            if i < p.len() {
                assert(p[i] == rows[i]);
                let j = choose|j: int| 0 <= j < q.len() && q[j] == p[i];
                assert(r[j] == rows[i]);
            } else {
                assert(r[r.len() - 1] == rows[i]);
            }
        }
    }
}

/// Rows none of which has the id stay as they are.
pub proof fn lemma_without_absent(rows: Seq<NavView>, id: Seq<char>)
    requires
        forall|i: int| 0 <= i < rows.len() ==> (#[trigger] rows[i]).id != id,
    ensures
        without_id(rows, id) == rows,
    decreases rows.len(),
{
    if rows.len() > 0 {
        let p = rows.drop_last();
        assert forall|i: int| 0 <= i < p.len() implies (#[trigger] p[i]).id != id by {
            assert(rows[i].id != id);
        }
        lemma_without_absent(p, id);
        assert(rows[rows.len() - 1].id != id);
        assert(p.push(rows.last()) =~= rows);
    }
}

/// Taking out a row undoes putting it in.
pub proof fn lemma_without_inserted(rest: Seq<NavView>, k: int, n: NavView)
    requires
        0 <= k <= rest.len(),
        forall|i: int| 0 <= i < rest.len() ==> (#[trigger] rest[i]).id != n.id,
    ensures
        without_id(rest.insert(k, n), n.id) == rest,
    decreases rest.len(),
{
    let r = rest.insert(k, n);
    if k == rest.len() {
        assert(r.drop_last() =~= rest);
        lemma_without_absent(rest, n.id);
    } else {
        let p = rest.drop_last();
        assert forall|i: int| 0 <= i < p.len() implies (#[trigger] p[i]).id != n.id by {
            assert(rest[i].id != n.id);
        }
        lemma_without_inserted(p, k, n);
        assert(r.drop_last() =~= p.insert(k, n));
        assert(rest[rest.len() - 1].id != n.id);
        assert(p.push(rest.last()) =~= rest);
    }
}

proof fn lemma_without_put_in(rows: Seq<NavView>, n: NavView, id: Seq<char>)
    requires
        in_order(rows, false),
    ensures
        without_id(put_in(rows, n, false), id) == (if n.id == id {
            without_id(rows, id)
        } else {
            put_in(without_id(rows, id), n, false)
        }),
    decreases rows.len(),
{
    let r = put_in(rows, n, false);
    if rows.len() == 0 || may_follow(rows.last(), n, false) {
        assert(r.drop_last() =~= rows);
        let w = without_id(rows, id);
        if w.len() > 0 {
            lemma_without_id(rows, id);
            assert(rows.contains(w[w.len() - 1]));
            let i = choose|i: int| 0 <= i < rows.len() && rows[i] == w[w.len() - 1];
            if i < rows.len() - 1 {
                assert(may_follow(rows[i], rows[rows.len() - 1], false));
            }
        }
    } else {
        let p = rows.drop_last();
        assert forall|i: int, j: int| 0 <= i < j < p.len() implies may_follow(
            p[i],
            p[j],
            false,
        ) by {
            assert(may_follow(rows[i], rows[j], false));
        }
        lemma_without_put_in(p, n, id);
        assert(r.drop_last() =~= put_in(p, n, false));
        let w = without_id(p, id);
        assert(w.push(rows.last()).drop_last() =~= w);
    }
}

/// Ranking rows without one of them is taking it out of the ranked rows.
pub proof fn lemma_ranked_without(rows: Seq<NavView>, id: Seq<char>)
    ensures
        ranked(without_id(rows, id), false) == without_id(ranked(rows, false), id),
    decreases rows.len(),
{
    if rows.len() > 0 {
        let p = rows.drop_last();
        lemma_ranked_without(p, id);
        law_ranked_is_in_order(p, false);
        lemma_without_put_in(ranked(p, false), rows.last(), id);
        let w = without_id(p, id);
        assert(w.push(rows.last()).drop_last() =~= w);
    }
}

// ---- one row more among ranked rows ----

proof fn lemma_put_in_commutes(rows: Seq<NavView>, n: NavView, x: NavView)
    requires
        n.same_deep_order != x.same_deep_order,
    ensures
        put_in(put_in(rows, n, false), x, false) == put_in(put_in(rows, x, false), n, false),
    decreases rows.len(),
{
    let a = put_in(rows, n, false);
    let b = put_in(rows, x, false);
    if rows.len() == 0 {
        assert(a.drop_last() =~= rows);
        assert(b.drop_last() =~= rows);
    } else {
        let p = rows.drop_last();
        lemma_put_in_commutes(p, n, x);
        if may_follow(rows.last(), n, false) {
            assert(a.drop_last() =~= rows);
        } else {
            assert(a.drop_last() =~= put_in(p, n, false));
        }
        if may_follow(rows.last(), x, false) {
            assert(b.drop_last() =~= rows);
        } else {
            assert(b.drop_last() =~= put_in(p, x, false));
        }
    }
}

/// A row whose rank no other has comes to stand in the same place, wherever among the
/// rows it comes.
proof fn lemma_ranked_inserted(rows: Seq<NavView>, i: int, n: NavView)
    requires
        0 <= i <= rows.len(),
        forall|j: int|
            0 <= j < rows.len() ==> (#[trigger] rows[j]).same_deep_order != n.same_deep_order,
    ensures
        ranked(rows.insert(i, n), false) == put_in(ranked(rows, false), n, false),
    decreases rows.len(),
{
    let r = rows.insert(i, n);
    if i == rows.len() {
        assert(r.drop_last() =~= rows);
    } else {
        let p = rows.drop_last();
        assert forall|j: int| 0 <= j < p.len() implies (#[trigger] p[j]).same_deep_order
            != n.same_deep_order by {
            assert(rows[j].same_deep_order != n.same_deep_order);
        }
        lemma_ranked_inserted(p, i, n);
        assert(r.drop_last() =~= p.insert(i, n));
        assert(rows[rows.len() - 1].same_deep_order != n.same_deep_order);
        lemma_put_in_commutes(ranked(p, false), n, rows.last());
    }
}

proof fn lemma_put_in_at(rows: Seq<NavView>, n: NavView, k: int)
    requires
        0 <= k <= rows.len(),
        k > 0 ==> rows[k - 1].same_deep_order < n.same_deep_order,
        forall|j: int|
            k <= j < rows.len() ==> n.same_deep_order < (#[trigger] rows[j]).same_deep_order,
    ensures
        put_in(rows, n, false) == rows.insert(k, n),
    decreases rows.len(),
{
    if k == rows.len() {
        assert(rows.insert(k, n) =~= rows.push(n));
    } else {
        let p = rows.drop_last();
        assert forall|j: int| k <= j < p.len() implies n.same_deep_order < (
        #[trigger] p[j]).same_deep_order by {
            assert(n.same_deep_order < rows[j].same_deep_order);
        }
        assert(n.same_deep_order < rows[rows.len() - 1].same_deep_order);
        lemma_put_in_at(p, n, k);
        assert(p.insert(k, n).push(rows.last()) =~= rows.insert(k, n));
    }
}

/// The place among ranked rows that a rank has which none of them has.
proof fn lemma_split(rows: Seq<NavView>, order: int) -> (k: int)
    requires
        in_order(rows, false),
        forall|j: int| 0 <= j < rows.len() ==> (#[trigger] rows[j]).same_deep_order != order,
    ensures
        0 <= k <= rows.len(),
        forall|j: int| 0 <= j < k ==> (#[trigger] rows[j]).same_deep_order < order,
        forall|j: int| k <= j < rows.len() ==> order < (#[trigger] rows[j]).same_deep_order,
    decreases rows.len(),
{
    if rows.len() == 0 {
        0
    } else {
        let p = rows.drop_last();
        assert forall|i: int, j: int| 0 <= i < j < p.len() implies may_follow(
            p[i],
            p[j],
            false,
        ) by {
            assert(may_follow(rows[i], rows[j], false));
        }
        assert forall|j: int| 0 <= j < p.len() implies (#[trigger] p[j]).same_deep_order
            != order by {
            assert(rows[j].same_deep_order != order);
        }
        let last = rows[rows.len() - 1];
        if last.same_deep_order < order {
            assert forall|j: int| 0 <= j < rows.len() implies (#[trigger] rows[j]).same_deep_order
                < order by {
                if j < rows.len() - 1 {
                    assert(may_follow(rows[j], rows[rows.len() - 1], false));
                }
            }
            rows.len() as int
        } else {
            let k = lemma_split(p, order);
            assert forall|j: int| 0 <= j < k implies (#[trigger] rows[j]).same_deep_order
                < order by {
                assert(p[j].same_deep_order < order);
            }
            assert forall|j: int| k <= j < rows.len() implies order < (
            #[trigger] rows[j]).same_deep_order by {
                if j < p.len() {
                    assert(order < p[j].same_deep_order);
                }
            }
            k
        }
    }
}

/// Where a row stands that comes anew among ranked rows with other ranks.
pub proof fn lemma_row_inserted(rows: Seq<NavView>, i: int, n: NavView) -> (k: int)
    requires
        0 <= i <= rows.len(),
        forall|j: int|
            0 <= j < rows.len() ==> (#[trigger] rows[j]).same_deep_order != n.same_deep_order,
    ensures
        0 <= k <= rows.len(),
        ranked(rows, false).len() == rows.len(),
        ranked(rows.insert(i, n), false) == ranked(rows, false).insert(k, n),
        forall|j: int|
            0 <= j < k ==> (#[trigger] ranked(rows, false)[j]).same_deep_order < n.same_deep_order,
        forall|j: int|
            k <= j < rows.len() ==> n.same_deep_order < (#[trigger] ranked(
                rows,
                false,
            )[j]).same_deep_order,
{
    let q = ranked(rows, false);
    law_ranked_is_in_order(rows, false);
    assert forall|j: int| 0 <= j < q.len() implies (#[trigger] q[j]).same_deep_order
        != n.same_deep_order by {
        assert(q.contains(q[j]));
        lemma_ranked_contains(rows, false, q[j]);
        let i2 = choose|i2: int| 0 <= i2 < rows.len() && rows[i2] == q[j];
        assert(rows[i2].same_deep_order != n.same_deep_order);
    }
    let k = lemma_split(q, n.same_deep_order);
    lemma_ranked_inserted(rows, i, n);
    lemma_put_in_at(q, n, k);
    k
}

// ---- a row put elsewhere ----

/// The rows with a parent, once a row is changed to be one of them: the others as they
/// were, and that row.
proof fn lemma_children_updated(
    navs: Seq<NavView>,
    m: int,
    n: NavView,
    parid: Seq<char>,
    with_deleted: bool,
) -> (i: int)
    requires
        0 <= m < navs.len(),
        forall|a: int, b: int| 0 <= a < b < navs.len() ==> navs[a].id != navs[b].id,
        n.id == navs[m].id,
        n.parid == parid,
        with_deleted || !n.is_delete,
    ensures
        0 <= i <= without_id(children_of(navs, parid, with_deleted), n.id).len(),
        children_of(navs.update(m, n), parid, with_deleted) == without_id(
            children_of(navs, parid, with_deleted),
            n.id,
        ).insert(i, n),
    decreases navs.len(),
{
    let p = navs.drop_last();
    let u = navs.update(m, n);
    let cp = children_of(p, parid, with_deleted);
    let c = children_of(navs, parid, with_deleted);
    if m == navs.len() - 1 {
        assert(u.drop_last() =~= p);
        lemma_children_of(p, parid, with_deleted);
        assert forall|j: int| 0 <= j < cp.len() implies (#[trigger] cp[j]).id != n.id by {
            let a = choose|a: int| 0 <= a < p.len() && p[a] == cp[j];
            assert(navs[a].id != navs[m].id);
        }
        lemma_without_absent(cp, n.id);
        assert(cp.push(navs.last()).drop_last() =~= cp);
        assert(without_id(c, n.id) == cp);
        assert(cp.insert(cp.len() as int, n) =~= cp.push(n));
        cp.len() as int
    } else {
        assert forall|a: int, b: int| 0 <= a < b < p.len() implies p[a].id != p[b].id by {
            assert(navs[a].id != navs[b].id);
        }
        let i = lemma_children_updated(p, m, n, parid, with_deleted);
        assert(u.drop_last() =~= p.update(m, n));
        let last = navs.last();
        assert(navs[m].id != navs[navs.len() - 1].id);
        let w = without_id(cp, n.id);
        assert(cp.push(last).drop_last() =~= cp);
        assert(w.insert(i, n).push(last) =~= w.push(last).insert(i, n));
        i
    }
}

/// Where a row stands that is put under a parent, with a rank that none of the other
/// rows there has: those before it have lower ranks, those behind it higher ones, and
/// the others stand as they stood.
pub proof fn lemma_row_placed(
    navs: Seq<NavView>,
    id: Seq<char>,
    parid: Seq<char>,
    order: int,
    with_deleted: bool,
) -> (k: int)
    requires
        ids_ok(navs),
        nav_index(navs, id) is Some,
        with_deleted || !navs[nav_index(navs, id)->0].is_delete,
        forall|j: int|
            0 <= j < without_id(ranked_children(navs, parid, with_deleted), id).len() ==> (
            #[trigger] without_id(
                ranked_children(navs, parid, with_deleted),
                id,
            )[j]).same_deep_order != order,
    ensures
        ({
            let rest = without_id(ranked_children(navs, parid, with_deleted), id);
            let new = ranked_children(with_place(navs, id, parid, order), parid, with_deleted);
            let n = NavView {
                parid,
                same_deep_order: order,
                ..navs[nav_index(navs, id)->0]
            };
            &&& 0 <= k <= rest.len()
            &&& new == rest.insert(k, n)
            &&& without_id(new, id) == rest
            &&& nav_index(new, id) == Some(k)
            &&& in_order(rest, false)
            &&& forall|j: int| 0 <= j < rest.len() ==> (#[trigger] rest[j]).id != id
            &&& forall|j: int| 0 <= j < k ==> (#[trigger] rest[j]).same_deep_order < order
            &&& forall|j: int|
                k <= j < rest.len() ==> order < (#[trigger] rest[j]).same_deep_order
        }),
{
    let m = nav_index(navs, id)->0;
    lemma_nav_index(navs, id);
    let n = NavView { parid, same_deep_order: order, ..navs[m] };
    let kids = children_of(navs, parid, with_deleted);
    let others = without_id(kids, id);
    let rest = without_id(ranked_children(navs, parid, with_deleted), id);
    lemma_ranked_without(kids, id);
    assert(rest == ranked(others, false));
    law_ranked_is_in_order(others, false);
    let i = lemma_children_updated(navs, m, n, parid, with_deleted);
    assert forall|j: int| 0 <= j < others.len() implies (#[trigger] others[j]).same_deep_order
        != order by {
        assert(others.contains(others[j]));
        lemma_ranked_contains(others, false, others[j]);
        let a = choose|a: int| 0 <= a < rest.len() && rest[a] == others[j];
        assert(rest[a].same_deep_order != order);
    }
    let k = lemma_row_inserted(others, i, n);
    let new = rest.insert(k, n);
    lemma_without_id(ranked_children(navs, parid, with_deleted), id);
    lemma_without_inserted(rest, k, n);
    assert forall|j: int| 0 <= j < k implies (#[trigger] new[j]).id != id by {
        assert(new[j] == rest[j]);
    }
    lemma_nav_index_is(new, id, k);
    k
}

/// What the ranked rows with a parent are: rows of the outline with that parent.
proof fn lemma_ranked_child(navs: Seq<NavView>, parid: Seq<char>, with_deleted: bool)
    ensures
        forall|j: int|
            0 <= j < ranked_children(navs, parid, with_deleted).len() ==> navs.contains(
                #[trigger] ranked_children(navs, parid, with_deleted)[j],
            ) && ranked_children(navs, parid, with_deleted)[j].parid == parid && (with_deleted
                || !ranked_children(navs, parid, with_deleted)[j].is_delete),
        forall|i: int|
            0 <= i < navs.len() && (#[trigger] navs[i]).parid == parid && (with_deleted
                || !navs[i].is_delete) ==> ranked_children(navs, parid, with_deleted).contains(
                navs[i],
            ),
{
    let kids = children_of(navs, parid, with_deleted);
    let q = ranked_children(navs, parid, with_deleted);
    lemma_children_of(navs, parid, with_deleted);
    assert forall|j: int| 0 <= j < q.len() implies navs.contains(#[trigger] q[j]) && q[j].parid
        == parid && (with_deleted || !q[j].is_delete) by {
        assert(q.contains(q[j]));
        lemma_ranked_contains(kids, false, q[j]);
        let a = choose|a: int| 0 <= a < kids.len() && kids[a] == q[j];
        assert(navs.contains(kids[a]));
    }
    assert forall|i: int|
        0 <= i < navs.len() && (#[trigger] navs[i]).parid == parid && (with_deleted
            || !navs[i].is_delete) implies q.contains(navs[i]) by {
        lemma_ranked_contains(kids, false, navs[i]);
    }
}

/// The ranked rows with a parent, and those without one of them, have ranks that fit.
proof fn lemma_ranked_fit(
    navs: Seq<NavView>,
    parid: Seq<char>,
    with_deleted: bool,
    id: Seq<char>,
)
    requires
        ranks_fit(navs),
    ensures
        ranks_fit(ranked_children(navs, parid, with_deleted)),
        ranks_fit(without_id(ranked_children(navs, parid, with_deleted), id)),
{
    let q = ranked_children(navs, parid, with_deleted);
    let w = without_id(q, id);
    lemma_ranked_child(navs, parid, with_deleted);
    assert forall|j: int| 0 <= j < q.len() implies i32::MIN <= (#[trigger] q[j]).same_deep_order
        <= i32::MAX by {
        let a = choose|a: int| 0 <= a < navs.len() && navs[a] == q[j];
        assert(i32::MIN <= navs[a].same_deep_order <= i32::MAX);
    }
    lemma_without_id(q, id);
    assert forall|j: int| 0 <= j < w.len() implies i32::MIN <= (#[trigger] w[j]).same_deep_order
        <= i32::MAX by {
        let a = choose|a: int| 0 <= a < q.len() && q[a] == w[j];
        assert(i32::MIN <= q[a].same_deep_order <= i32::MAX);
    }
}

// ---- drag and drop ----

/// A row can be dropped beside every other row, and beside nothing else.
pub proof fn law_drop_is_possible(
    navs: Seq<NavView>,
    dragged: Seq<char>,
    target: Seq<char>,
    after: bool,
)
    ensures
        reorder_target(navs, dragged, target, after) is Some <==> (nav_index(navs, dragged) is Some
            && nav_index(navs, target) is Some && dragged != target),
{
    if nav_index(navs, dragged) is Some && nav_index(navs, target) is Some && dragged != target {
        let t = nav_index(navs, target)->0;
        lemma_nav_index(navs, target);
        let kids = children_of(navs, navs[t].parid, true);
        lemma_children_of(navs, navs[t].parid, true);
        assert(kids.contains(navs[t]));
        let a = choose|a: int| 0 <= a < kids.len() && kids[a] == navs[t];
        let others = without_id(kids, dragged);
        lemma_without_id(kids, dragged);
        assert(others.contains(kids[a]));
        lemma_ranked_contains(others, false, navs[t]);
        let sibs = ranked(others, false);
        let b = choose|b: int| 0 <= b < sibs.len() && sibs[b] == navs[t];
        lemma_nav_index(sibs, target);
        assert(sibs[b].id == target);
    }
}

/// A dropped row comes to stand right behind, or right before, the row it was dropped
/// on, under the same parent. The other rows there stand as they stood. Its number is
/// above those of all rows before it and below those of all rows behind it. The rank it
/// comes from is told exactly where it stays with its parent.
pub proof fn law_dropped_row_stands_beside_its_target(
    navs: Seq<NavView>,
    dragged: Seq<char>,
    target: Seq<char>,
    after: bool,
    order: int,
)
    requires
        ids_ok(navs),
        ranks_fit(navs),
        nav_index(navs, dragged) is Some,
        nav_index(navs, target) is Some,
        dragged != target,
        lies_by(reorder_target(navs, dragged, target, after)->0.rule, order),
    ensures
        ({
            let r = reorder_target(navs, dragged, target, after)->0;
            let d = navs[nav_index(navs, dragged)->0];
            let parid = navs[nav_index(navs, target)->0].parid;
            let new = ranked_children(with_place(navs, dragged, r.parid, order), parid, true);
            let at = nav_index(new, dragged)->0;
            &&& r.parid == parid
            &&& nav_index(new, dragged) is Some
            &&& nav_index(new, target) == Some(
                if after {
                    at - 1
                } else {
                    at + 1
                },
            )
            &&& without_id(new, dragged) == without_id(
                ranked_children(navs, parid, true),
                dragged,
            )
            &&& new[at] == (NavView { parid, same_deep_order: order, ..d })
            &&& forall|j: int| 0 <= j < at ==> (#[trigger] new[j]).same_deep_order < order
            &&& forall|j: int|
                at < j < new.len() ==> order < (#[trigger] new[j]).same_deep_order
            &&& r.from_order is Some <==> d.parid == parid
            &&& r.from_order matches Some(from) ==> from == d.same_deep_order
        }),
{
    law_drop_is_possible(navs, dragged, target, after);
    lemma_nav_index(navs, dragged);
    lemma_nav_index(navs, target);
    let d = navs[nav_index(navs, dragged)->0];
    let parid = navs[nav_index(navs, target)->0].parid;
    let kids = children_of(navs, parid, true);
    let rest = without_id(ranked_children(navs, parid, true), dragged);
    lemma_ranked_without(kids, dragged);
    law_ranked_is_in_order(without_id(kids, dragged), false);
    lemma_ranked_fit(navs, parid, true, dragged);
    let t = nav_index(rest, target)->0;
    lemma_nav_index(rest, target);
    let at = if after {
        t + 1
    } else {
        t
    };
    if at > 0 {
        assert(i32::MIN <= rest[at - 1].same_deep_order <= i32::MAX);
    }
    if at < rest.len() {
        assert(i32::MIN <= rest[at].same_deep_order <= i32::MAX);
    }
    assert forall|j: int| 0 <= j < rest.len() implies (#[trigger] rest[j]).same_deep_order
        != order by {
        if j < at - 1 {
            assert(may_follow(rest[j], rest[at - 1], false));
        }
        if j > at {
            assert(may_follow(rest[at], rest[j], false));
        }
    }
    let k = lemma_row_placed(navs, dragged, parid, order, true);
    assert(k == at) by {
        if k < at {
            assert(order < rest[at - 1].same_deep_order);
        }
        if k > at {
            assert(rest[at].same_deep_order < order);
        }
    }
    let n = NavView { parid, same_deep_order: order, ..d };
    let new = rest.insert(k, n);
    let new_t = if after {
        t
    } else {
        t + 1
    };
    assert(new[new_t] == rest[t]);
    assert forall|j: int| 0 <= j < new_t implies (#[trigger] new[j]).id != target by {
        if j < k {
            assert(new[j] == rest[j]);
        } else if j > k {
            assert(new[j] == rest[j - 1]);
        }
    }
    lemma_nav_index_is(new, target, new_t);
    assert forall|j: int| k < j < new.len() implies order < (
    #[trigger] new[j]).same_deep_order by {
        assert(new[j] == rest[j - 1]);
    }
    assert forall|j: int| 0 <= j < k implies (#[trigger] new[j]).same_deep_order < order by {
        assert(new[j] == rest[j]);
    }
}

/// The number of a dropped row is halfway between those of the two rows that it comes
/// between, one more than that of the last row where it becomes the last, and one less
/// than that of the first where it becomes the first.
pub proof fn law_dropped_row_gets_its_number(
    navs: Seq<NavView>,
    dragged: Seq<char>,
    target: Seq<char>,
    after: bool,
    number: spec_fn(int) -> int,
    one: int,
    order: int,
)
    requires
        ranks_fit(navs),
        nav_index(navs, dragged) is Some,
        nav_index(navs, target) is Some,
        dragged != target,
        makes(reorder_target(navs, dragged, target, after)->0.rule, number, one, order),
    ensures
        ({
            let parid = navs[nav_index(navs, target)->0].parid;
            let rest = without_id(ranked_children(navs, parid, true), dragged);
            let t = nav_index(rest, target)->0;
            let beside = number(rest[t].same_deep_order);
            &&& nav_index(rest, target) is Some
            &&& after && t + 1 < rest.len() ==> number(order) - beside == number(
                rest[t + 1].same_deep_order,
            ) - number(order)
            &&& after && t + 1 == rest.len() ==> number(order) == beside + one
            &&& !after && t > 0 ==> number(order) - number(rest[t - 1].same_deep_order) == beside
                - number(order)
            &&& !after && t == 0 ==> number(order) == beside - one
        }),
{
    law_drop_is_possible(navs, dragged, target, after);
    let parid = navs[nav_index(navs, target)->0].parid;
    let rest = without_id(ranked_children(navs, parid, true), dragged);
    lemma_ranked_without(children_of(navs, parid, true), dragged);
    lemma_ranked_fit(navs, parid, true, dragged);
    let t = nav_index(rest, target)->0;
    lemma_nav_index(rest, target);
    assert(i32::MIN <= rest[t].same_deep_order <= i32::MAX);
    if after && t + 1 < rest.len() {
        assert(i32::MIN <= rest[t + 1].same_deep_order <= i32::MAX);
    }
    if !after && t > 0 {
        assert(i32::MIN <= rest[t - 1].same_deep_order <= i32::MAX);
    }
}

// ---- moving among siblings ----

/// A row is one of its siblings, and it alone has its id there.
proof fn lemma_own_place(navs: Seq<NavView>, id: Seq<char>, with_deleted: bool)
    requires
        ids_ok(navs),
        nav_index(navs, id) is Some,
        with_deleted || !navs[nav_index(navs, id)->0].is_delete,
    ensures
        ({
            let me = navs[nav_index(navs, id)->0];
            let sibs = ranked_children(navs, me.parid, with_deleted);
            &&& nav_index(sibs, id) is Some
            &&& 0 <= nav_index(sibs, id)->0 < sibs.len()
            &&& sibs[nav_index(sibs, id)->0] == me
            &&& distinct(sibs)
            &&& without_id(sibs, id) == sibs.remove(nav_index(sibs, id)->0)
        }),
{
    let m = nav_index(navs, id)->0;
    lemma_nav_index(navs, id);
    let me = navs[m];
    let kids = children_of(navs, me.parid, with_deleted);
    let sibs = ranked_children(navs, me.parid, with_deleted);
    lemma_ranked_child(navs, me.parid, with_deleted);
    assert(sibs.contains(navs[m]));
    let a = choose|a: int| 0 <= a < sibs.len() && sibs[a] == me;
    lemma_children_distinct(navs, me.parid, with_deleted);
    lemma_ranked_distinct(kids, false);
    assert forall|j: int| 0 <= j < a implies (#[trigger] sibs[j]).id != id by {
        assert(sibs[j].id != sibs[a].id);
    }
    lemma_nav_index_is(sibs, id, a);
    let rest = sibs.remove(a);
    assert forall|j: int| 0 <= j < rest.len() implies (#[trigger] rest[j]).id != id by {
        if j < a {
            assert(rest[j] == sibs[j]);
        } else {
            assert(rest[j] == sibs[j + 1]);
            assert(sibs[a].id != sibs[j + 1].id);
        }
    }
    lemma_without_inserted(rest, a, me);
    assert(rest.insert(a, me) =~= sibs);
}

/// A row can move up exactly if it is not the first of its siblings, and down exactly if
/// it is not the last.
pub proof fn law_move_stops_at_the_ends(navs: Seq<NavView>, id: Seq<char>, up: bool)
    requires
        ids_ok(navs),
    ensures
        move_rule(navs, id, up) is Some <==> (nav_index(navs, id) matches Some(m) && {
            let sibs = ranked_children(navs, navs[m].parid, true);
            if up {
                sibs[0].id != id
            } else {
                sibs.last().id != id
            }
        }),
{
    if nav_index(navs, id) is Some {
        lemma_own_place(navs, id, true);
        let me = navs[nav_index(navs, id)->0];
        lemma_nav_index(navs, id);
        let sibs = ranked_children(navs, me.parid, true);
        let k = nav_index(sibs, id)->0;
        if k > 0 {
            assert(sibs[0].id != sibs[k].id);
        }
        if k < sibs.len() - 1 {
            assert(sibs[k].id != sibs[sibs.len() - 1].id);
        }
    }
}

/// A row that moves up, or down, changes places with the sibling before it, or behind
/// it. All other siblings stand as they stood.
pub proof fn law_moved_row_changes_places_with_its_neighbour(
    navs: Seq<NavView>,
    id: Seq<char>,
    up: bool,
    order: int,
)
    requires
        ids_ok(navs),
        ranks_fit(navs),
        move_rule(navs, id, up) is Some,
        lies_by(move_rule(navs, id, up)->0, order),
    ensures
        ({
            let me = navs[nav_index(navs, id)->0];
            let old = ranked_children(navs, me.parid, true);
            let new = ranked_children(with_order(navs, id, order), me.parid, true);
            let k = nav_index(old, id)->0;
            let other = if up {
                k - 1
            } else {
                k + 1
            };
            &&& nav_index(old, id) is Some
            &&& 0 <= other < old.len()
            &&& new == old.update(k, old[other]).update(
                other,
                NavView { same_deep_order: order, ..me },
            )
            &&& forall|j: int| 0 <= j < other ==> (#[trigger] new[j]).same_deep_order < order
            &&& forall|j: int|
                other < j < new.len() ==> order < (#[trigger] new[j]).same_deep_order
        }),
{
    let me = navs[nav_index(navs, id)->0];
    lemma_nav_index(navs, id);
    lemma_own_place(navs, id, true);
    let old = ranked_children(navs, me.parid, true);
    let k = nav_index(old, id)->0;
    let rest = old.remove(k);
    law_ranked_is_in_order(children_of(navs, me.parid, true), false);
    lemma_ranked_fit(navs, me.parid, true, id);
    let other = if up {
        k - 1
    } else {
        k + 1
    };
    // The places of the two rows that the moved one comes between.
    let lo = if up {
        k - 2
    } else {
        k + 1
    };
    let hi = lo + 1;
    if 0 <= lo < old.len() {
        assert(i32::MIN <= old[lo].same_deep_order <= i32::MAX);
    }
    if 0 <= hi < old.len() {
        assert(i32::MIN <= old[hi].same_deep_order <= i32::MAX);
    }
    assert forall|j: int| 0 <= j <= lo && j < old.len() implies (
    #[trigger] old[j]).same_deep_order < order by {
        if j < lo {
            assert(may_follow(old[j], old[lo], false));
        }
    }
    assert forall|j: int| hi <= j < old.len() implies order < (
    #[trigger] old[j]).same_deep_order by {
        if hi < j {
            assert(may_follow(old[hi], old[j], false));
        }
    }
    assert forall|j: int| 0 <= j < rest.len() implies (#[trigger] rest[j]).same_deep_order != order
        && (j < other <==> rest[j].same_deep_order < order) by {
        if j < k {
            assert(rest[j] == old[j]);
        } else {
            assert(rest[j] == old[j + 1]);
        }
    }
    let at = lemma_row_placed(navs, id, me.parid, order, true);
    assert(at == other) by {
        if at < other {
            assert(rest[at].same_deep_order < order);
        }
        if other < at {
            assert(rest[other].same_deep_order < order);
        }
    }
    assert(with_order(navs, id, order) =~= with_place(navs, id, me.parid, order));
    let n = NavView { same_deep_order: order, ..me };
    let new = rest.insert(other, n);
    assert(new =~= old.update(k, old[other]).update(other, n));
    assert forall|j: int| 0 <= j < other implies (#[trigger] new[j]).same_deep_order < order by {
        assert(new[j] == rest[j]);
    }
    assert forall|j: int| other < j < new.len() implies order < (
    #[trigger] new[j]).same_deep_order by {
        assert(new[j] == rest[j - 1]);
    }
}

/// The number of a row that moves is halfway between those of the sibling it passes and
/// of the one beyond, or half of one past that of the sibling where none is beyond.
pub proof fn law_moved_row_gets_its_number(
    navs: Seq<NavView>,
    id: Seq<char>,
    up: bool,
    number: spec_fn(int) -> int,
    one: int,
    order: int,
)
    requires
        ids_ok(navs),
        ranks_fit(navs),
        move_rule(navs, id, up) is Some,
        makes(move_rule(navs, id, up)->0, number, one, order),
    ensures
        ({
            let old = ranked_children(navs, navs[nav_index(navs, id)->0].parid, true);
            let k = nav_index(old, id)->0;
            &&& nav_index(old, id) is Some
            &&& up && k >= 2 ==> number(order) - number(old[k - 2].same_deep_order) == number(
                old[k - 1].same_deep_order,
            ) - number(order)
            &&& up && k == 1 ==> 2 * (number(old[0].same_deep_order) - number(order)) == one
            &&& !up && k + 2 < old.len() ==> number(order) - number(old[k + 1].same_deep_order)
                == number(old[k + 2].same_deep_order) - number(order)
            &&& !up && k + 2 == old.len() ==> 2 * (number(order) - number(
                old[k + 1].same_deep_order,
            )) == one
        }),
{
    let me = navs[nav_index(navs, id)->0];
    lemma_own_place(navs, id, true);
    let old = ranked_children(navs, me.parid, true);
    let k = nav_index(old, id)->0;
    lemma_ranked_fit(navs, me.parid, true, id);
    if up {
        assert(i32::MIN <= old[k - 1].same_deep_order <= i32::MAX);
        if k >= 2 {
            assert(i32::MIN <= old[k - 2].same_deep_order <= i32::MAX);
        }
    } else {
        assert(i32::MIN <= old[k + 1].same_deep_order <= i32::MAX);
        if k + 2 < old.len() {
            assert(i32::MIN <= old[k + 2].same_deep_order <= i32::MAX);
        }
    }
}

// ---- behind a row ----

/// Whether a row stands behind another, with no row between them but such as have the
/// rank of that one.
pub open spec fn stands_behind(rows: Seq<NavView>, id: Seq<char>, other: Seq<char>) -> bool {
    &&& nav_index(rows, id) matches Some(k)
    &&& nav_index(rows, other) matches Some(o)
    &&& o < k
    &&& forall|j: int|
        o < j < k ==> (#[trigger] rows[j]).same_deep_order == rows[o].same_deep_order
}

/// Whether a number is halfway between that of a rank and the next higher one of rows,
/// or one more than that of the rank where no row ranks higher.
pub open spec fn halfway_to_next(
    rows: Seq<NavView>,
    rank: int,
    number: spec_fn(int) -> int,
    one: int,
    order: int,
) -> bool {
    ||| (forall|j: int| 0 <= j < rows.len() ==> (#[trigger] rows[j]).same_deep_order <= rank)
        && number(order) == number(rank) + one
    ||| exists|i: int|
        0 <= i < rows.len() && rank < (#[trigger] rows[i]).same_deep_order && (forall|j: int|
            0 <= j < rows.len() && rank < (#[trigger] rows[j]).same_deep_order
                ==> rows[i].same_deep_order <= rows[j].same_deep_order) && number(order) - number(
            rank,
        ) == number(rows[i].same_deep_order) - number(order)
}

/// What `first_rank_above` is: the lowest rank above another, or none where no row
/// ranks higher.
proof fn lemma_first_rank_above(rows: Seq<NavView>, rank: int)
    requires
        in_order(rows, false),
    ensures
        match first_rank_above(rows, rank) {
            Some(r) => rank < r && (exists|i: int|
                0 <= i < rows.len() && (#[trigger] rows[i]).same_deep_order == r) && forall|j: int|
                0 <= j < rows.len() && rank < (#[trigger] rows[j]).same_deep_order ==> r
                    <= rows[j].same_deep_order,
            None => forall|j: int|
                0 <= j < rows.len() ==> (#[trigger] rows[j]).same_deep_order <= rank,
        },
    decreases rows.len(),
{
    if rows.len() > 0 {
        let p = rows.drop_last();
        assert forall|i: int, j: int| 0 <= i < j < p.len() implies may_follow(
            p[i],
            p[j],
            false,
        ) by {
            assert(may_follow(rows[i], rows[j], false));
        }
        lemma_first_rank_above(p, rank);
        match first_rank_above(p, rank) {
            Some(r) => {
                let i = choose|i: int| 0 <= i < p.len() && (#[trigger] p[i]).same_deep_order == r;
                assert(rows[i].same_deep_order == r);
                assert(may_follow(rows[i], rows[rows.len() - 1], false));
                assert forall|j: int|
                    0 <= j < rows.len() && rank < (#[trigger] rows[j]).same_deep_order implies r
                    <= rows[j].same_deep_order by {
                    if j < p.len() {
                        assert(p[j] == rows[j]);
                    }
                }
            },
            None => {
                assert forall|j: int| 0 <= j < p.len() implies (
                #[trigger] rows[j]).same_deep_order <= rank by {
                    assert(p[j].same_deep_order <= rank);
                }
                assert(rows[rows.len() - 1] == rows.last());
            },
        }
    }
}

/// A rank put behind another stands above it and below all that rank higher.
proof fn lemma_behind(rows: Seq<NavView>, rank: int, order: int)
    requires
        in_order(rows, false),
        ranks_fit(rows),
        i32::MIN <= rank <= i32::MAX,
        lies_by(behind_rule(rows, rank), order),
    ensures
        rank < order,
        forall|j: int|
            0 <= j < rows.len() && rank < (#[trigger] rows[j]).same_deep_order ==> order
                < rows[j].same_deep_order,
{
    lemma_first_rank_above(rows, rank);
    if first_rank_above(rows, rank) is Some {
        let r = first_rank_above(rows, rank)->0;
        let i = choose|i: int| 0 <= i < rows.len() && (#[trigger] rows[i]).same_deep_order == r;
        assert(i32::MIN <= rows[i].same_deep_order <= i32::MAX);
    }
}

proof fn lemma_behind_number(
    rows: Seq<NavView>,
    rank: int,
    number: spec_fn(int) -> int,
    one: int,
    order: int,
)
    requires
        in_order(rows, false),
        ranks_fit(rows),
        i32::MIN <= rank <= i32::MAX,
        makes(behind_rule(rows, rank), number, one, order),
    ensures
        halfway_to_next(rows, rank, number, one, order),
{
    lemma_first_rank_above(rows, rank);
    if first_rank_above(rows, rank) is Some {
        let r = first_rank_above(rows, rank)->0;
        let i = choose|i: int| 0 <= i < rows.len() && (#[trigger] rows[i]).same_deep_order == r;
        assert(i32::MIN <= rows[i].same_deep_order <= i32::MAX);
        assert(rank < rows[i].same_deep_order);
    }
}

/// A row that is put in behind all rows up to a rank stands behind each row of that rank.
proof fn lemma_stands_behind(rest: Seq<NavView>, k: int, n: NavView, o: int)
    requires
        in_order(rest, false),
        0 <= k <= rest.len(),
        0 <= o < rest.len(),
        nav_index(rest, rest[o].id) == Some(o),
        forall|j: int| 0 <= j < rest.len() ==> (#[trigger] rest[j]).id != n.id,
        forall|j: int| 0 <= j < k ==> (#[trigger] rest[j]).same_deep_order <= rest[o].same_deep_order,
        o < k,
    ensures
        stands_behind(rest.insert(k, n), n.id, rest[o].id),
{
    let new = rest.insert(k, n);
    lemma_nav_index(rest, rest[o].id);
    assert forall|j: int| 0 <= j < k implies (#[trigger] new[j]).id != n.id by {
        assert(new[j] == rest[j]);
    }
    lemma_nav_index_is(new, n.id, k);
    assert(new[o] == rest[o]);
    assert forall|j: int| 0 <= j < o implies (#[trigger] new[j]).id != rest[o].id by {
        assert(new[j] == rest[j]);
    }
    lemma_nav_index_is(new, rest[o].id, o);
    assert forall|j: int| o < j < k implies (#[trigger] new[j]).same_deep_order
        == new[o].same_deep_order by {
        assert(new[j] == rest[j]);
        assert(may_follow(rest[o], rest[j], false));
    }
}

// ---- one level up ----

/// A row can move one level up exactly if its parent is a row that has a parent itself.
pub proof fn law_outdent_needs_a_level_above(navs: Seq<NavView>, id: Seq<char>)
    ensures
        outdent_target(navs, id) is Some <==> (exists|m: int, p: int|
            nav_index(navs, id) == Some(m) && #[trigger] nav_index(navs, navs[m].parid) == Some(p)
                && navs[m].parid != ROOT_CONTAINER_PARENT_ID@ && #[trigger] navs[p].parid
                != ROOT_CONTAINER_PARENT_ID@),
{
    if outdent_target(navs, id) is Some {
        let m = nav_index(navs, id)->0;
        let p = nav_index(navs, navs[m].parid)->0;
        assert(nav_index(navs, navs[m].parid) == Some(p) && navs[p].parid
            != ROOT_CONTAINER_PARENT_ID@);
    }
}

/// A live row that moves one level up goes to the parent of its parent. Its number is
/// above its old parent's and below that of every live row there that ranks above the
/// old parent. It stands right behind the old parent, or behind those that share the old
/// parent's rank, and the others stand as they stood.
pub proof fn law_outdented_row_stands_behind_its_parent(
    navs: Seq<NavView>,
    id: Seq<char>,
    order: int,
)
    requires
        ids_ok(navs),
        ranks_fit(navs),
        outdent_target(navs, id) is Some,
        lies_by((outdent_target(navs, id)->0).1, order),
    ensures
        ({
            let me = navs[nav_index(navs, id)->0];
            let up = navs[nav_index(navs, me.parid)->0];
            let old = ranked_children(navs, up.parid, false);
            let new = ranked_children(
                with_place(navs, id, (outdent_target(navs, id)->0).0, order),
                up.parid,
                false,
            );
            &&& (outdent_target(navs, id)->0).0 == up.parid
            &&& up.id == me.parid
            &&& up.same_deep_order < order
            &&& forall|i: int|
                0 <= i < navs.len() && (#[trigger] navs[i]).parid == up.parid && !navs[i].is_delete
                    && up.same_deep_order < navs[i].same_deep_order ==> order
                    < navs[i].same_deep_order
            &&& !me.is_delete ==> without_id(new, id) == without_id(old, id) && new.contains(
                NavView { parid: up.parid, same_deep_order: order, ..me },
            )
            &&& !me.is_delete && !up.is_delete && up.id != id ==> stands_behind(new, id, up.id)
        }),
{
    lemma_nav_index(navs, id);
    let me = navs[nav_index(navs, id)->0];
    let p = nav_index(navs, me.parid)->0;
    lemma_nav_index(navs, me.parid);
    let up = navs[p];
    let old = ranked_children(navs, up.parid, false);
    law_ranked_is_in_order(children_of(navs, up.parid, false), false);
    lemma_ranked_fit(navs, up.parid, false, id);
    lemma_behind(old, up.same_deep_order, order);
    lemma_ranked_child(navs, up.parid, false);
    assert forall|i: int|
        0 <= i < navs.len() && (#[trigger] navs[i]).parid == up.parid && !navs[i].is_delete
            && up.same_deep_order < navs[i].same_deep_order implies order
        < navs[i].same_deep_order by {
        let j = choose|j: int| 0 <= j < old.len() && old[j] == navs[i];
        assert(order < old[j].same_deep_order);
    }
    if !me.is_delete {
        let rest = without_id(old, id);
        lemma_without_id(old, id);
        assert forall|j: int| 0 <= j < rest.len() implies (#[trigger] rest[j]).same_deep_order
            != order && (rest[j].same_deep_order < order ==> rest[j].same_deep_order
            <= up.same_deep_order) by {
            let a = choose|a: int| 0 <= a < old.len() && old[a] == rest[j];
            assert(up.same_deep_order < old[a].same_deep_order ==> order < old[a].same_deep_order);
        }
        let k = lemma_row_placed(navs, id, up.parid, order, false);
        let n = NavView { parid: up.parid, same_deep_order: order, ..me };
        assert(rest.insert(k, n)[k] == n);
        if !up.is_delete && up.id != id {
            lemma_own_place(navs, up.id, false);
            let b = nav_index(old, up.id)->0;
            assert(rest.contains(old[b]));
            let o = choose|o: int| 0 <= o < rest.len() && rest[o] == up;
            lemma_without_distinct(old, id);
            assert forall|j: int| 0 <= j < o implies (#[trigger] rest[j]).id != up.id by {
                assert(rest[j].id != rest[o].id);
            }
            lemma_nav_index_is(rest, up.id, o);
            assert(o < k) by {
                if k <= o {
                    assert(order < rest[o].same_deep_order);
                }
            }
            lemma_stands_behind(rest, k, n, o);
        }
    }
}

proof fn lemma_without_distinct(rows: Seq<NavView>, id: Seq<char>)
    requires
        distinct(rows),
    ensures
        distinct(without_id(rows, id)),
    decreases rows.len(),
{
    if rows.len() > 0 {
        let p = rows.drop_last();
        assert forall|i: int, j: int| 0 <= i < j < p.len() implies p[i].id != p[j].id by {
            assert(rows[i].id != rows[j].id);
        }
        lemma_without_distinct(p, id);
        lemma_without_id(p, id);
        let q = without_id(p, id);
        let r = without_id(rows, id);
        assert forall|i: int, j: int| 0 <= i < j < r.len() implies r[i].id != r[j].id by {
            if j < q.len() {
                assert(q[i].id != q[j].id);
            } else {
                let a = choose|a: int| 0 <= a < p.len() && p[a] == q[i];
                assert(rows[a].id != rows[rows.len() - 1].id);
            }
        }
    }
}

/// The number of a row that moves one level up is halfway between its old parent's and
/// the next higher one of the live rows there, or one more than the old parent's.
pub proof fn law_outdented_row_gets_its_number(
    navs: Seq<NavView>,
    id: Seq<char>,
    number: spec_fn(int) -> int,
    one: int,
    order: int,
)
    requires
        ranks_fit(navs),
        outdent_target(navs, id) is Some,
        makes((outdent_target(navs, id)->0).1, number, one, order),
    ensures
        ({
            let up = navs[nav_index(navs, navs[nav_index(navs, id)->0].parid)->0];
            halfway_to_next(
                ranked_children(navs, up.parid, false),
                up.same_deep_order,
                number,
                one,
                order,
            )
        }),
{
    lemma_nav_index(navs, id);
    let me = navs[nav_index(navs, id)->0];
    lemma_nav_index(navs, me.parid);
    let up = navs[nav_index(navs, me.parid)->0];
    law_ranked_is_in_order(children_of(navs, up.parid, false), false);
    lemma_ranked_fit(navs, up.parid, false, id);
    lemma_behind_number(
        ranked_children(navs, up.parid, false),
        up.same_deep_order,
        number,
        one,
        order,
    );
}

// ---- a new row ----

/// A new row behind a row has a number above that row's and below that of every sibling,
/// deleted or not, that ranks above it. It stands right behind the row, or behind those
/// that share the row's rank, and the others stand as they stood.
pub proof fn law_new_row_stands_behind_its_sibling(
    navs: Seq<NavView>,
    id: Seq<char>,
    n: NavView,
)
    requires
        ids_ok(navs),
        ranks_fit(navs),
        nav_index(navs, id) is Some,
        nav_index(navs, n.id) is None,
        n.parid == navs[nav_index(navs, id)->0].parid,
        lies_by(sibling_after_rule(navs, id)->0, n.same_deep_order),
    ensures
        ({
            let me = navs[nav_index(navs, id)->0];
            let old = ranked_children(navs, me.parid, true);
            let new = ranked_children(navs.push(n), me.parid, true);
            &&& me.same_deep_order < n.same_deep_order
            &&& forall|i: int|
                0 <= i < navs.len() && (#[trigger] navs[i]).parid == me.parid && me.same_deep_order
                    < navs[i].same_deep_order ==> n.same_deep_order < navs[i].same_deep_order
            &&& without_id(new, n.id) == old
            &&& stands_behind(new, n.id, id)
        }),
{
    lemma_nav_index(navs, id);
    lemma_nav_index(navs, n.id);
    let me = navs[nav_index(navs, id)->0];
    let kids = children_of(navs, me.parid, true);
    let old = ranked_children(navs, me.parid, true);
    let order = n.same_deep_order;
    law_ranked_is_in_order(kids, false);
    lemma_ranked_fit(navs, me.parid, true, id);
    lemma_behind(old, me.same_deep_order, order);
    lemma_ranked_child(navs, me.parid, true);
    lemma_children_of(navs, me.parid, true);
    assert forall|i: int|
        0 <= i < navs.len() && (#[trigger] navs[i]).parid == me.parid && me.same_deep_order
            < navs[i].same_deep_order implies order < navs[i].same_deep_order by {
        let j = choose|j: int| 0 <= j < old.len() && old[j] == navs[i];
        assert(order < old[j].same_deep_order);
    }
    assert forall|j: int| 0 <= j < kids.len() implies (#[trigger] kids[j]).same_deep_order
        != order by {
        let a = choose|a: int| 0 <= a < navs.len() && navs[a] == kids[j];
        assert(me.same_deep_order < navs[a].same_deep_order ==> order < navs[a].same_deep_order);
    }
    let k = lemma_row_inserted(kids, kids.len() as int, n);
    assert(navs.push(n).drop_last() =~= navs);
    assert(kids.insert(kids.len() as int, n) =~= kids.push(n));
    assert forall|j: int| 0 <= j < old.len() implies (#[trigger] old[j]).id != n.id by {
        let a = choose|a: int| 0 <= a < navs.len() && navs[a] == old[j];
        assert(navs[a].id != n.id);
    }
    lemma_without_inserted(old, k, n);
    lemma_own_place(navs, id, true);
    let o = nav_index(old, id)->0;
    assert(o < k) by {
        if k <= o {
            assert(order < old[o].same_deep_order);
        }
    }
    assert forall|j: int| 0 <= j < k implies (#[trigger] old[j]).same_deep_order
        <= old[o].same_deep_order by {
        assert(old[j].same_deep_order < order);
    }
    lemma_stands_behind(old, k, n, o);
}

/// The number of a new row is halfway between that of the row it comes behind and the
/// next higher one of the siblings, or one more than that of the row.
pub proof fn law_new_row_gets_its_number(
    navs: Seq<NavView>,
    id: Seq<char>,
    number: spec_fn(int) -> int,
    one: int,
    order: int,
)
    requires
        ranks_fit(navs),
        nav_index(navs, id) is Some,
        makes(sibling_after_rule(navs, id)->0, number, one, order),
    ensures
        ({
            let me = navs[nav_index(navs, id)->0];
            halfway_to_next(
                ranked_children(navs, me.parid, true),
                me.same_deep_order,
                number,
                one,
                order,
            )
        }),
{
    lemma_nav_index(navs, id);
    let me = navs[nav_index(navs, id)->0];
    law_ranked_is_in_order(children_of(navs, me.parid, true), false);
    lemma_ranked_fit(navs, me.parid, true, id);
    lemma_behind_number(
        ranked_children(navs, me.parid, true),
        me.same_deep_order,
        number,
        one,
        order,
    );
}

// ---- one level down ----

/// Whether a row comes before another by rank, and by id where the ranks are equal.
pub open spec fn comes_before(a: NavView, b: NavView) -> bool {
    a.same_deep_order < b.same_deep_order || (a.same_deep_order == b.same_deep_order && lex_less(
        a.id,
        b.id,
    ))
}

/// What `highest_rank` is: the rank of some row, and no row ranks above it.
proof fn lemma_highest_rank(rows: Seq<NavView>)
    ensures
        match highest_rank(rows) {
            Some(r) => (exists|i: int|
                0 <= i < rows.len() && (#[trigger] rows[i]).same_deep_order == r) && forall|j: int|
                0 <= j < rows.len() ==> (#[trigger] rows[j]).same_deep_order <= r,
            None => rows.len() == 0,
        },
    decreases rows.len(),
{
    if rows.len() > 0 {
        let p = rows.drop_last();
        lemma_highest_rank(p);
        let r = highest_rank(rows)->0;
        assert forall|j: int| 0 <= j < rows.len() implies (#[trigger] rows[j]).same_deep_order
            <= r by {
            if j < p.len() {
                assert(p[j] == rows[j]);
            }
        }
        assert(rows[rows.len() - 1] == rows.last());
        if r != rows.last().same_deep_order {
            let i = choose|i: int| 0 <= i < p.len() && (#[trigger] p[i]).same_deep_order == r;
            assert(rows[i].same_deep_order == r);
        }
    }
}

/// What the ranked live siblings of a live row are where ids decide: each comes before
/// those behind it.
proof fn lemma_siblings_by_id(navs: Seq<NavView>, id: Seq<char>)
    requires
        ids_ok(navs),
        nav_index(navs, id) is Some,
    ensures
        ({
            let me = navs[nav_index(navs, id)->0];
            let sibs = ranked(children_of(navs, me.parid, false), true);
            &&& forall|i: int, j: int|
                0 <= i < j < sibs.len() ==> comes_before(#[trigger] sibs[i], #[trigger] sibs[j])
            &&& forall|j: int|
                0 <= j < sibs.len() ==> navs.contains(#[trigger] sibs[j]) && sibs[j].parid
                    == me.parid && !sibs[j].is_delete
            &&& forall|i: int|
                0 <= i < navs.len() && (#[trigger] navs[i]).parid == me.parid && !navs[i].is_delete
                    ==> sibs.contains(navs[i])
        }),
{
    let me = navs[nav_index(navs, id)->0];
    let kids = children_of(navs, me.parid, false);
    let sibs = ranked(kids, true);
    law_ranked_is_in_order(kids, true);
    lemma_children_of(navs, me.parid, false);
    lemma_children_distinct(navs, me.parid, false);
    lemma_ranked_distinct(kids, true);
    assert forall|i: int, j: int| 0 <= i < j < sibs.len() implies comes_before(
        #[trigger] sibs[i],
        #[trigger] sibs[j],
    ) by {
        assert(may_follow(sibs[i], sibs[j], true));
        assert(sibs[i].id != sibs[j].id);
        lemma_lex_total(sibs[i].id, sibs[j].id);
    }
    assert forall|j: int| 0 <= j < sibs.len() implies navs.contains(#[trigger] sibs[j])
        && sibs[j].parid == me.parid && !sibs[j].is_delete by {
        assert(sibs.contains(sibs[j]));
        lemma_ranked_contains(kids, true, sibs[j]);
        let a = choose|a: int| 0 <= a < kids.len() && kids[a] == sibs[j];
        assert(navs.contains(kids[a]));
    }
    assert forall|i: int|
        0 <= i < navs.len() && (#[trigger] navs[i]).parid == me.parid
            && !navs[i].is_delete implies sibs.contains(navs[i]) by {
        lemma_ranked_contains(kids, true, navs[i]);
    }
}

/// No two rows come before each other.
proof fn lemma_comes_before_one_way(a: NavView, b: NavView)
    requires
        comes_before(a, b),
    ensures
        !comes_before(b, a),
{
    if lex_less(a.id, b.id) && lex_less(b.id, a.id) {
        lemma_lex_transitive(a.id, b.id, a.id);
        lemma_lex_irreflexive(a.id);
    }
}

/// A row can move one level down exactly if it is live and a live sibling comes before
/// it. The last of those becomes its parent.
pub proof fn law_indent_goes_below_the_sibling_before(navs: Seq<NavView>, id: Seq<char>)
    requires
        ids_ok(navs),
        nav_index(navs, id) is Some,
    ensures
        ({
            let me = navs[nav_index(navs, id)->0];
            &&& indent_target(navs, id) is Some <==> !me.is_delete && exists|i: int|
                0 <= i < navs.len() && (#[trigger] navs[i]).parid == me.parid && !navs[i].is_delete
                    && comes_before(navs[i], me)
            &&& indent_target(navs, id) matches Some(t) ==> exists|p: int|
                0 <= p < navs.len() && (#[trigger] navs[p]).id == t.0 && navs[p].parid == me.parid
                    && !navs[p].is_delete && comes_before(navs[p], me) && forall|i: int|
                    0 <= i < navs.len() && i != p && (#[trigger] navs[i]).parid == me.parid
                        && !navs[i].is_delete && comes_before(navs[i], me) ==> comes_before(
                        navs[i],
                        navs[p],
                    )
        }),
{
    let m = nav_index(navs, id)->0;
    lemma_nav_index(navs, id);
    let me = navs[m];
    let sibs = ranked(children_of(navs, me.parid, false), true);
    lemma_siblings_by_id(navs, id);
    lemma_nav_index(sibs, id);
    if nav_index(sibs, id) is Some {
        let k = nav_index(sibs, id)->0;
        let a = choose|a: int| 0 <= a < navs.len() && navs[a] == sibs[k];
        assert(a == m) by {
            if a < m {
                assert(navs[a].id != navs[m].id);
            }
            if m < a {
                assert(navs[m].id != navs[a].id);
            }
        }
        assert forall|i: int|
            0 <= i < navs.len() && (#[trigger] navs[i]).parid == me.parid && !navs[i].is_delete
                && comes_before(navs[i], me) implies exists|j: int|
            0 <= j < k && sibs[j] == navs[i] by {
            let j = choose|j: int| 0 <= j < sibs.len() && sibs[j] == navs[i];
            if k < j {
                assert(comes_before(sibs[k], sibs[j]));
                lemma_comes_before_one_way(sibs[k], sibs[j]);
            }
            if k == j {
                lemma_comes_before_one_way(me, me);
            }
            assert(0 <= j < k && sibs[j] == navs[i]);
        }
        if k > 0 {
            let p = choose|p: int| 0 <= p < navs.len() && navs[p] == sibs[k - 1];
            assert(comes_before(sibs[k - 1], sibs[k]));
            assert(navs[p].parid == me.parid);
            assert forall|i: int|
                0 <= i < navs.len() && i != p && (#[trigger] navs[i]).parid == me.parid
                    && !navs[i].is_delete && comes_before(navs[i], me) implies comes_before(
                navs[i],
                navs[p],
            ) by {
                let j = choose|j: int| 0 <= j < k && sibs[j] == navs[i];
                assert(j != k - 1) by {
                    if i < p {
                        assert(navs[i].id != navs[p].id);
                    } else {
                        assert(navs[p].id != navs[i].id);
                    }
                }
                assert(comes_before(sibs[j], sibs[k - 1]));
            }
        }
    } else {
        assert(me.is_delete) by {
            if !me.is_delete {
                assert(sibs.contains(navs[m]));
                let j = choose|j: int| 0 <= j < sibs.len() && sibs[j] == navs[m];
                assert(sibs[j].id == id);
            }
        }
    }
}

/// A row that moves one level down becomes the last of its new live siblings, which
/// stand as they stood.
pub proof fn law_indented_row_stands_last(navs: Seq<NavView>, id: Seq<char>, order: int)
    requires
        ids_ok(navs),
        ranks_fit(navs),
        indent_target(navs, id) is Some,
        lies_by((indent_target(navs, id)->0).1, order),
    ensures
        ({
            let me = navs[nav_index(navs, id)->0];
            let parid = (indent_target(navs, id)->0).0;
            ranked_children(with_place(navs, id, parid, order), parid, false) == without_id(
                ranked_children(navs, parid, false),
                id,
            ).push(NavView { parid, same_deep_order: order, ..me })
        }),
{
    lemma_nav_index(navs, id);
    law_indent_goes_below_the_sibling_before(navs, id);
    let me = navs[nav_index(navs, id)->0];
    let parid = (indent_target(navs, id)->0).0;
    let kids = children_of(navs, parid, false);
    let old = ranked_children(navs, parid, false);
    let rest = without_id(old, id);
    lemma_children_of(navs, parid, false);
    lemma_highest_rank(kids);
    lemma_without_id(old, id);
    assert forall|j: int| 0 <= j < rest.len() implies (#[trigger] rest[j]).same_deep_order
        < order by {
        let a = choose|a: int| 0 <= a < old.len() && old[a] == rest[j];
        assert(old.contains(old[a]));
        lemma_ranked_contains(kids, false, old[a]);
        let b = choose|b: int| 0 <= b < kids.len() && kids[b] == old[a];
        let r = highest_rank(kids)->0;
        assert(kids[b].same_deep_order <= r);
        let c = choose|c: int| 0 <= c < kids.len() && (#[trigger] kids[c]).same_deep_order == r;
        let d = choose|d: int| 0 <= d < navs.len() && navs[d] == kids[c];
        assert(i32::MIN <= navs[d].same_deep_order <= i32::MAX);
    }
    let k = lemma_row_placed(navs, id, parid, order, false);
    assert(k == rest.len()) by {
        if k < rest.len() {
            assert(order < rest[k].same_deep_order);
        }
    }
    let n = NavView { parid, same_deep_order: order, ..me };
    assert(rest.insert(k, n) =~= rest.push(n));
}

/// The number of a row that moves one level down is one more than the highest of its new
/// live siblings, or one where it has none.
pub proof fn law_indented_row_gets_its_number(
    navs: Seq<NavView>,
    id: Seq<char>,
    number: spec_fn(int) -> int,
    one: int,
    order: int,
)
    requires
        ranks_fit(navs),
        indent_target(navs, id) is Some,
        makes((indent_target(navs, id)->0).1, number, one, order),
    ensures
        ({
            let kids = children_of(navs, (indent_target(navs, id)->0).0, false);
            &&& kids.len() == 0 ==> number(order) == one
            &&& kids.len() > 0 ==> exists|i: int|
                0 <= i < kids.len() && number(order) == number(
                    (#[trigger] kids[i]).same_deep_order,
                ) + one && forall|j: int|
                    0 <= j < kids.len() ==> (#[trigger] kids[j]).same_deep_order
                        <= kids[i].same_deep_order
        }),
{
    let parid = (indent_target(navs, id)->0).0;
    let kids = children_of(navs, parid, false);
    lemma_children_of(navs, parid, false);
    lemma_highest_rank(kids);
    if kids.len() > 0 {
        let r = highest_rank(kids)->0;
        let c = choose|c: int| 0 <= c < kids.len() && (#[trigger] kids[c]).same_deep_order == r;
        let d = choose|d: int| 0 <= d < navs.len() && navs[d] == kids[c];
        assert(i32::MIN <= navs[d].same_deep_order <= i32::MAX);
        assert(number(order) == number(kids[c].same_deep_order) + one);
    }
}

// ---- the arrow keys at the edges of a row ----

proof fn lemma_last_id_below(rows: Seq<NavView>, rank: int)
    requires
        in_order(rows, false),
    ensures
        match last_id_below(rows, rank) {
            Some(id) => exists|i: int|
                0 <= i < rows.len() && (#[trigger] rows[i]).id == id && rows[i].same_deep_order
                    < rank && forall|j: int|
                    i < j < rows.len() ==> rank <= (#[trigger] rows[j]).same_deep_order,
            None => forall|j: int|
                0 <= j < rows.len() ==> rank <= (#[trigger] rows[j]).same_deep_order,
        },
    decreases rows.len(),
{
    if rows.len() > 0 {
        let p = rows.drop_last();
        assert forall|i: int, j: int| 0 <= i < j < p.len() implies may_follow(
            p[i],
            p[j],
            false,
        ) by {
            assert(may_follow(rows[i], rows[j], false));
        }
        lemma_last_id_below(p, rank);
        let last = rows[rows.len() - 1];
        if last.same_deep_order < rank {
            assert(rows[rows.len() - 1].id == rows.last().id);
        } else {
            match last_id_below(p, rank) {
                Some(id) => {
                    let i = choose|i: int|
                        0 <= i < p.len() && (#[trigger] p[i]).id == id && p[i].same_deep_order
                            < rank && forall|j: int|
                            i < j < p.len() ==> rank <= (#[trigger] p[j]).same_deep_order;
                    assert(rows[i].id == id);
                    assert forall|j: int| i < j < rows.len() implies rank <= (
                    #[trigger] rows[j]).same_deep_order by {
                        if j < p.len() {
                            assert(p[j] == rows[j]);
                        }
                    }
                },
                None => {
                    assert forall|j: int| 0 <= j < rows.len() implies rank <= (
                    #[trigger] rows[j]).same_deep_order by {
                        if j < p.len() {
                            assert(p[j] == rows[j]);
                        }
                    }
                },
            }
        }
    }
}

/// From the start of a row the caret goes to a sibling that ranks below it, as high as
/// there is one. Where none ranks below it, the caret goes to the parent, if that is a
/// row and not the root, and else nowhere.
pub proof fn law_left_goes_to_the_sibling_before_or_the_parent(navs: Seq<NavView>, id: Seq<char>)
    ensures
        nav_index(navs, id) is None ==> left_target(navs, id) is None,
        nav_index(navs, id) matches Some(m) ==> {
            let me = navs[m];
            let lower = |i: int|
                0 <= i < navs.len() && navs[i].parid == me.parid && navs[i].same_deep_order
                    < me.same_deep_order;
            &&& (exists|i: int| #[trigger] lower(i)) ==> exists|i: int| #[trigger]
                lower(i) && left_target(navs, id) == Some(navs[i].id) && forall|j: int| #[trigger]
                    lower(j) ==> navs[j].same_deep_order <= navs[i].same_deep_order
            &&& !(exists|i: int| #[trigger] lower(i)) ==> left_target(navs, id) == (if me.parid
                != ROOT_CONTAINER_PARENT_ID@ && root_id(navs) != Some(me.parid) && nav_index(
                navs,
                me.parid,
            ) is Some {
                Some(me.parid)
            } else {
                None
            })
        },
{
    if nav_index(navs, id) is Some {
        let m = nav_index(navs, id)->0;
        lemma_nav_index(navs, id);
        let me = navs[m];
        let sibs = ranked_children(navs, me.parid, true);
        law_ranked_is_in_order(children_of(navs, me.parid, true), false);
        lemma_last_id_below(sibs, me.same_deep_order);
        lemma_ranked_child(navs, me.parid, true);
        let lower = |i: int|
            0 <= i < navs.len() && navs[i].parid == me.parid && navs[i].same_deep_order
                < me.same_deep_order;
        match last_id_below(sibs, me.same_deep_order) {
            Some(prev) => {
                let k = choose|k: int|
                    0 <= k < sibs.len() && (#[trigger] sibs[k]).id == prev
                        && sibs[k].same_deep_order < me.same_deep_order && forall|j: int|
                        k < j < sibs.len() ==> me.same_deep_order <= (
                        #[trigger] sibs[j]).same_deep_order;
                let i = choose|i: int| 0 <= i < navs.len() && navs[i] == sibs[k];
                assert(lower(i));
                assert forall|j: int| #[trigger] lower(j) implies navs[j].same_deep_order
                    <= navs[i].same_deep_order by {
                    assert(sibs.contains(navs[j]));
                    let a = choose|a: int| 0 <= a < sibs.len() && sibs[a] == navs[j];
                    if a < k {
                        assert(may_follow(sibs[a], sibs[k], false));
                    }
                }
            },
            None => {
                assert forall|j: int| !(#[trigger] lower(j)) by {
                    if lower(j) {
                        assert(sibs.contains(navs[j]));
                        let a = choose|a: int| 0 <= a < sibs.len() && sibs[a] == navs[j];
                        assert(me.same_deep_order <= sibs[a].same_deep_order);
                    }
                }
            },
        }
    }
}

/// From the end of a row the caret goes to a live child, as low as there is one, and
/// nowhere exactly if there is none. The row has to be opened exactly if it is closed.
pub proof fn law_right_goes_to_the_first_child(navs: Seq<NavView>, id: Seq<char>)
    requires
        nav_index(navs, id) is Some,
    ensures
        right_target(navs, id) is None <==> forall|i: int|
            0 <= i < navs.len() && (#[trigger] navs[i]).parid == id ==> navs[i].is_delete,
        right_target(navs, id) matches Some(t) ==> t.1 == !navs[nav_index(navs, id)->0].is_display
            && exists|i: int|
            0 <= i < navs.len() && (#[trigger] navs[i]).id == t.0 && navs[i].parid == id
                && !navs[i].is_delete && forall|j: int|
                0 <= j < navs.len() && (#[trigger] navs[j]).parid == id && !navs[j].is_delete
                    ==> navs[i].same_deep_order <= navs[j].same_deep_order,
{
    let kids = ranked_children(navs, id, false);
    law_ranked_is_in_order(children_of(navs, id, false), false);
    lemma_ranked_child(navs, id, false);
    if kids.len() == 0 {
        assert forall|i: int| 0 <= i < navs.len() && (#[trigger] navs[i]).parid
            == id implies navs[i].is_delete by {
            if !navs[i].is_delete {
                assert(kids.contains(navs[i]));
            }
        }
    } else {
        let i = choose|i: int| 0 <= i < navs.len() && navs[i] == kids[0];
        assert(navs[i].parid == id && !navs[i].is_delete);
        assert forall|j: int|
            0 <= j < navs.len() && (#[trigger] navs[j]).parid == id
                && !navs[j].is_delete implies navs[i].same_deep_order
            <= navs[j].same_deep_order by {
            let a = choose|a: int| 0 <= a < kids.len() && kids[a] == navs[j];
            if a > 0 {
                assert(may_follow(kids[0], kids[a], false));
            }
        }
    }
}

} // verus!
