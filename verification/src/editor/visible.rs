//! Laws of what is shown of an outline.

use vstd::prelude::*;

verus! {

use crate::editor::forest::{
    hangs_below, ids_ok, is_forest, law_forest_ends, lemma_child_of, lemma_hangs_below_parent,
    lemma_reaches_raises, levels_fall,
};
use crate::editor::siblings::{
    children_of, law_ranked_is_in_order, lemma_children_of, lemma_ranked_contains,
    may_follow, put_in, ranked, ranked_children,
};
use crate::editor::tree::{
    lemma_walked, outline_ends, reaches, root_id, rows_below, subtree_ends, subtree_ids, top_rows,
    visible_ids, walk,
};
use crate::models::{lemma_nav_index, nav_index, NavView};

/// Whether no two rows have the same id.
pub open spec fn distinct(rows: Seq<NavView>) -> bool {
    forall|i: int, j: int| 0 <= i < j < rows.len() ==> rows[i].id != rows[j].id
}

proof fn lemma_push_distinct(rows: Seq<NavView>, n: NavView)
    requires
        distinct(rows),
        forall|i: int| 0 <= i < rows.len() ==> (#[trigger] rows[i]).id != n.id,
    ensures
        distinct(rows.push(n)),
{
}

pub proof fn lemma_children_distinct(navs: Seq<NavView>, parid: Seq<char>, with_deleted: bool)
    requires
        distinct(navs),
    ensures
        distinct(children_of(navs, parid, with_deleted)),
    decreases navs.len(),
{
    if navs.len() > 0 {
        let p = navs.drop_last();
        let n = navs.last();
        assert forall|i: int, j: int| 0 <= i < j < p.len() implies p[i].id != p[j].id by {
            assert(navs[i].id != navs[j].id);
        }
        lemma_children_distinct(p, parid, with_deleted);
        lemma_children_of(p, parid, with_deleted);
        let rest = children_of(p, parid, with_deleted);
        assert forall|i: int| 0 <= i < rest.len() implies (#[trigger] rest[i]).id != n.id by {
            assert(p.contains(rest[i]));
            let k = choose|k: int| 0 <= k < p.len() && p[k] == rest[i];
            assert(navs[k].id != navs[navs.len() - 1].id);
        }
        lemma_push_distinct(rest, n);
    }
}

proof fn lemma_put_in_distinct(rows: Seq<NavView>, n: NavView, by_id: bool)
    requires
        distinct(rows),
        forall|i: int| 0 <= i < rows.len() ==> (#[trigger] rows[i]).id != n.id,
    ensures
        distinct(put_in(rows, n, by_id)),
        forall|i: int|
            0 <= i < put_in(rows, n, by_id).len() ==> (#[trigger] put_in(rows, n, by_id)[i]) == n
                || rows.contains(put_in(rows, n, by_id)[i]),
    decreases rows.len(),
{
    let r = put_in(rows, n, by_id);
    if rows.len() == 0 || may_follow(rows.last(), n, by_id) {
        lemma_push_distinct(rows, n);
        assert forall|i: int| 0 <= i < r.len() implies (#[trigger] r[i]) == n || rows.contains(
            r[i],
        ) by {
            if i < rows.len() {
                assert(r[i] == rows[i]);
            }
        }
    } else {
        let p = rows.drop_last();
        let last = rows.last();
        assert forall|i: int, j: int| 0 <= i < j < p.len() implies p[i].id != p[j].id by {
            assert(rows[i].id != rows[j].id);
        }
        assert forall|i: int| 0 <= i < p.len() implies (#[trigger] p[i]).id != n.id by {
            assert(rows[i].id != n.id);
        }
        lemma_put_in_distinct(p, n, by_id);
        let q = put_in(p, n, by_id);
        assert forall|i: int| 0 <= i < q.len() implies (#[trigger] q[i]).id != last.id by {
            assert(rows[rows.len() - 1].id != n.id);
            if q[i] != n {
                let k = choose|k: int| 0 <= k < p.len() && p[k] == q[i];
                assert(rows[k].id != rows[rows.len() - 1].id);
            }
        }
        lemma_push_distinct(q, last);
        assert forall|i: int| 0 <= i < r.len() implies (#[trigger] r[i]) == n || rows.contains(
            r[i],
        ) by {
            if i < q.len() {
                assert(r[i] == q[i]);
                if q[i] != n {
                    let k = choose|k: int| 0 <= k < p.len() && p[k] == q[i];
                    assert(rows[k] == q[i]);
                }
            } else {
                assert(rows[rows.len() - 1] == last);
            }
        }
    }
}

pub proof fn lemma_ranked_distinct(rows: Seq<NavView>, by_id: bool)
    requires
        distinct(rows),
    ensures
        distinct(ranked(rows, by_id)),
    decreases rows.len(),
{
    if rows.len() > 0 {
        let p = rows.drop_last();
        let n = rows.last();
        assert forall|i: int, j: int| 0 <= i < j < p.len() implies p[i].id != p[j].id by {
            assert(rows[i].id != rows[j].id);
        }
        lemma_ranked_distinct(p, by_id);
        let q = ranked(p, by_id);
        assert forall|i: int| 0 <= i < q.len() implies (#[trigger] q[i]).id != n.id by {
            assert(q.contains(q[i]));
            lemma_ranked_contains(p, by_id, q[i]);
            let k = choose|k: int| 0 <= k < p.len() && p[k] == q[i];
            assert(rows[k].id != rows[rows.len() - 1].id);
        }
        lemma_put_in_distinct(q, n, by_id);
    }
}

/// Whether rows are rows of an outline with one parent, each with an id of its own.
spec fn are_siblings(navs: Seq<NavView>, rows: Seq<NavView>, parid: Seq<char>) -> bool {
    &&& distinct(rows)
    &&& forall|i: int|
        0 <= i < rows.len() ==> navs.contains(#[trigger] rows[i]) && rows[i].parid == parid
}

proof fn lemma_below_are_siblings(navs: Seq<NavView>, n: NavView, whole: bool)
    requires
        distinct(navs),
    ensures
        are_siblings(navs, rows_below(navs, n, whole), n.id),
{
    lemma_children_distinct(navs, n.id, true);
    lemma_children_distinct(navs, n.id, false);
    lemma_ranked_distinct(children_of(navs, n.id, false), false);
    let below = rows_below(navs, n, whole);
    assert forall|i: int| 0 <= i < below.len() implies navs.contains(#[trigger] below[i])
        && below[i].parid == n.id by {
        assert(below.contains(below[i]));
        lemma_child_of(navs, n.id, whole, below[i]);
    }
}

/// Of two rows that a third hangs below, one hangs below the other.
proof fn lemma_common_row(
    navs: Seq<NavView>,
    a: Seq<char>,
    b: Seq<char>,
    x: Seq<char>,
    sa: nat,
    sb: nat,
)
    requires
        reaches(navs, a, x, sa),
        reaches(navs, b, x, sb),
    ensures
        hangs_below(navs, a, b) || hangs_below(navs, b, a),
    decreases sa,
{
    let up = navs[nav_index(navs, x)->0].parid;
    if up == a {
        if up != b {
            assert(reaches(navs, b, a, (sb - 1) as nat));
        }
    } else if up == b {
        assert(reaches(navs, a, b, (sa - 1) as nat));
    } else {
        lemma_common_row(navs, a, b, up, (sa - 1) as nat, (sb - 1) as nat);
    }
}

/// Nothing hangs below two siblings.
proof fn lemma_siblings_part(
    navs: Seq<NavView>,
    level: spec_fn(Seq<char>) -> nat,
    i: int,
    j: int,
    x: Seq<char>,
)
    requires
        ids_ok(navs),
        levels_fall(navs, level),
        0 <= i < navs.len(),
        0 <= j < navs.len(),
        navs[i].id != navs[j].id,
        navs[i].parid == navs[j].parid,
    ensures
        !(hangs_below(navs, navs[i].id, x) && hangs_below(navs, navs[j].id, x)),
{
    let a = navs[i].id;
    let b = navs[j].id;
    let up = navs[i].parid;
    assert(level(navs[i].id) < level(up));
    assert(level(navs[j].id) < level(navs[j].parid));
    let both = hangs_below(navs, a, x) && hangs_below(navs, b, x);
    if both && x != a && x != b {
        let sa = choose|s: nat| #[trigger] reaches(navs, a, x, s);
        let sb = choose|s: nat| #[trigger] reaches(navs, b, x, s);
        lemma_common_row(navs, a, b, x, sa, sb);
    }
    if both && hangs_below(navs, a, b) {
        lemma_hangs_below_parent(navs, a, j);
        if up != a {
            let s = choose|s: nat| #[trigger] reaches(navs, a, up, s);
            lemma_reaches_raises(navs, level, a, up, s);
        }
    } else if both {
        lemma_hangs_below_parent(navs, b, i);
        if up != b {
            let s = choose|s: nat| #[trigger] reaches(navs, b, up, s);
            lemma_reaches_raises(navs, level, b, up, s);
        }
    }
}

/// Whether an id hangs below one of some rows.
spec fn below_one(navs: Seq<NavView>, rows: Seq<NavView>, x: Seq<char>) -> bool {
    exists|j: int| 0 <= j < rows.len() && hangs_below(navs, (#[trigger] rows[j]).id, x)
}

proof fn lemma_walk_distinct(
    navs: Seq<NavView>,
    level: spec_fn(Seq<char>) -> nat,
    rows: Seq<NavView>,
    parid: Seq<char>,
    depth: nat,
    whole: bool,
)
    requires
        ids_ok(navs),
        levels_fall(navs, level),
        are_siblings(navs, rows, parid),
        walk(navs, rows, depth, whole) is Some,
    ensures
        ({
            let ids = walk(navs, rows, depth, whole)->0;
            &&& ids.no_duplicates()
            &&& forall|i: int| 0 <= i < ids.len() ==> below_one(navs, rows, #[trigger] ids[i])
        }),
    decreases depth, rows.len(),
{
    if rows.len() > 0 {
        let p = rows.drop_last();
        let n = rows.last();
        let m = rows.len() - 1;
        assert(rows[m] == n);
        assert forall|i: int, j: int| 0 <= i < j < p.len() implies p[i].id != p[j].id by {
            assert(rows[i].id != rows[j].id);
        }
        assert forall|i: int| 0 <= i < p.len() implies navs.contains(#[trigger] p[i]) && p[i].parid
            == parid by {
            assert(rows[i] == p[i]);
        }
        lemma_walk_distinct(navs, level, p, parid, depth, whole);
        let before = walk(navs, p, depth, whole)->0;
        let below = rows_below(navs, n, whole);
        let ids = walk(navs, rows, depth, whole)->0;
        let sub = if below.len() > 0 {
            walk(navs, below, (depth - 1) as nat, whole)->0
        } else {
            Seq::<Seq<char>>::empty()
        };
        assert(ids =~= before.push(n.id) + sub);
        lemma_below_are_siblings(navs, n, whole);
        if below.len() > 0 {
            lemma_walk_distinct(navs, level, below, n.id, (depth - 1) as nat, whole);
        }
        let k = choose|k: int| 0 <= k < navs.len() && navs[k] == n;
        // What comes by below the last row hangs below it, and is not the row itself.
        assert forall|i: int| 0 <= i < sub.len() implies hangs_below(navs, n.id, #[trigger] sub[i])
            && sub[i] != n.id by {
            assert(below_one(navs, below, sub[i]));
            let j = choose|j: int|
                0 <= j < below.len() && hangs_below(navs, (#[trigger] below[j]).id, sub[i]);
            lemma_hangs_below_child(navs, level, n.id, below[j], sub[i]);
        }
        // What came by before does not hang below it.
        assert forall|i: int| 0 <= i < before.len() implies !hangs_below(
            navs,
            n.id,
            #[trigger] before[i],
        ) by {
            assert(below_one(navs, p, before[i]));
            let j = choose|j: int|
                0 <= j < p.len() && hangs_below(navs, (#[trigger] p[j]).id, before[i]);
            assert(navs.contains(p[j]));
            let q = choose|q: int| 0 <= q < navs.len() && navs[q] == p[j];
            assert(rows[j].id != rows[m].id);
            lemma_siblings_part(navs, level, q, k, before[i]);
        }
        let b = before.len() as int;
        assert forall|i: int, j: int| 0 <= i < j < ids.len() implies ids[i] != ids[j] by {
            if j < b {
                assert(before[i] != before[j]);
            } else if j == b {
                assert(!hangs_below(navs, n.id, before[i]));
            } else if i < b {
                assert(hangs_below(navs, n.id, sub[j - b - 1]));
                assert(!hangs_below(navs, n.id, before[i]));
            } else if i == b {
                assert(sub[j - b - 1] != n.id);
            } else {
                assert(sub[i - b - 1] != sub[j - b - 1]);
            }
        }
        assert forall|i: int| 0 <= i < ids.len() implies below_one(navs, rows, #[trigger] ids[i]) by {
            if i < b {
                assert(below_one(navs, p, before[i]));
                let j = choose|j: int|
                    0 <= j < p.len() && hangs_below(navs, (#[trigger] p[j]).id, before[i]);
                assert(rows[j] == p[j]);
            } else if i > b {
                assert(hangs_below(navs, n.id, sub[i - b - 1]));
                assert(hangs_below(navs, rows[m].id, ids[i]));
            } else {
                assert(hangs_below(navs, rows[m].id, ids[i]));
            }
        }
    }
}

/// What hangs below a child hangs below its parent, and is not the parent.
proof fn lemma_hangs_below_child(
    navs: Seq<NavView>,
    level: spec_fn(Seq<char>) -> nat,
    top: Seq<char>,
    child: NavView,
    x: Seq<char>,
)
    requires
        ids_ok(navs),
        levels_fall(navs, level),
        navs.contains(child),
        child.parid == top,
        hangs_below(navs, child.id, x),
    ensures
        hangs_below(navs, top, x),
        x != top,
{
    let k = choose|k: int| 0 <= k < navs.len() && navs[k] == child;
    assert(level(navs[k].id) < level(navs[k].parid));
    lemma_nav_index(navs, child.id);
    let c = nav_index(navs, child.id)->0;
    assert(c == k) by {
        if c < k {
            assert(navs[c].id != navs[k].id);
        }
    }
    if x == child.id {
        assert(reaches(navs, top, x, 1));
    } else {
        let s = choose|s: nat| #[trigger] reaches(navs, child.id, x, s);
        lemma_reaches_raises(navs, level, child.id, x, s);
        lemma_reaches_on(navs, top, child.id, x, s);
    }
}

/// Going up to a row and one further leads to that row's parent.
proof fn lemma_reaches_on(navs: Seq<NavView>, top: Seq<char>, mid: Seq<char>, x: Seq<char>, s: nat)
    requires
        ids_ok(navs),
        reaches(navs, mid, x, s),
        nav_index(navs, mid) matches Some(c) && navs[c].parid == top,
    ensures
        reaches(navs, top, x, s + 1),
    decreases s,
{
    let up = navs[nav_index(navs, x)->0].parid;
    lemma_nav_index(navs, mid);
    if up == mid {
        assert(!crate::text::is_blank(navs[nav_index(navs, mid)->0].id));
        assert(reaches(navs, top, mid, s)) by {
            assert(s >= 1);
        }
    } else {
        lemma_reaches_on(navs, top, mid, up, (s - 1) as nat);
    }
}

/// In a forest no row is shown twice.
pub proof fn law_visible_ids_are_distinct(navs: Seq<NavView>)
    requires
        is_forest(navs),
    ensures
        visible_ids(navs).no_duplicates(),
{
    let level = choose|level: spec_fn(Seq<char>) -> nat| levels_fall(navs, level);
    law_forest_ends(navs, Seq::empty());
    let top = top_rows(navs);
    let depth = choose|depth: nat| #[trigger] walk(navs, top, depth, false) is Some;
    lemma_walked(navs, top, depth, false);
    match root_id(navs) {
        Some(root) => {
            lemma_children_distinct(navs, root, false);
            lemma_ranked_distinct(children_of(navs, root, false), false);
            assert forall|i: int| 0 <= i < top.len() implies navs.contains(#[trigger] top[i])
                && top[i].parid == root by {
                assert(top.contains(top[i]));
                lemma_child_of(navs, root, false, top[i]);
            }
            lemma_walk_distinct(navs, level, top, root, depth, false);
        },
        None => {},
    }
}

// ---- which rows are shown, and in what order ----

/// Whether one id stands above another in a list.
pub open spec fn stands_above(ids: Seq<Seq<char>>, x: Seq<char>, y: Seq<char>) -> bool {
    exists|a: int, b: int|
        0 <= a < b < ids.len() && #[trigger] ids[a] == x && #[trigger] ids[b] == y
}

/// Whether ids hold those of rows, in the order of the rows.
pub open spec fn holds_in_order(ids: Seq<Seq<char>>, rows: Seq<NavView>) -> bool {
    &&& forall|i: int| 0 <= i < rows.len() ==> ids.contains((#[trigger] rows[i]).id)
    &&& forall|i: int, j: int|
        0 <= i < j < rows.len() ==> stands_above(
            ids,
            (#[trigger] rows[i]).id,
            (#[trigger] rows[j]).id,
        )
}

proof fn lemma_holds_in_more(
    before: Seq<Seq<char>>,
    part: Seq<Seq<char>>,
    behind: Seq<Seq<char>>,
    rows: Seq<NavView>,
)
    requires
        holds_in_order(part, rows),
    ensures
        holds_in_order(before + part + behind, rows),
{
    let ids = before + part + behind;
    let m = before.len() as int;
    assert forall|i: int| 0 <= i < rows.len() implies ids.contains((#[trigger] rows[i]).id) by {
        let a = choose|a: int| 0 <= a < part.len() && part[a] == rows[i].id;
        assert(ids[m + a] == rows[i].id);
    }
    assert forall|i: int, j: int| 0 <= i < j < rows.len() implies stands_above(
        ids,
        (#[trigger] rows[i]).id,
        (#[trigger] rows[j]).id,
    ) by {
        let (a, b) = choose|a: int, b: int|
            0 <= a < b < part.len() && #[trigger] part[a] == rows[i].id && #[trigger] part[b]
                == rows[j].id;
        assert(ids[m + a] == rows[i].id);
        assert(ids[m + b] == rows[j].id);
    }
}

/// A row below another is a row of the outline with that one as its parent.
proof fn lemma_row_below(navs: Seq<NavView>, n: NavView, whole: bool, below: NavView)
    requires
        rows_below(navs, n, whole).contains(below),
    ensures
        navs.contains(below),
        below.parid == n.id,
        whole || (n.is_display && !below.is_delete),
{
    if whole {
        let kids = children_of(navs, n.id, true);
        lemma_children_of(navs, n.id, true);
        let a = choose|a: int| 0 <= a < kids.len() && kids[a] == below;
        assert(navs.contains(kids[a]));
    } else {
        lemma_child_of(navs, n.id, false, below);
    }
}

/// A walk comes by its rows in their order.
proof fn lemma_walk_holds_rows(
    navs: Seq<NavView>,
    rows: Seq<NavView>,
    depth: nat,
    whole: bool,
)
    requires
        walk(navs, rows, depth, whole) is Some,
    ensures
        holds_in_order(walk(navs, rows, depth, whole)->0, rows),
    decreases rows.len(),
{
    if rows.len() > 0 {
        let p = rows.drop_last();
        lemma_walk_holds_rows(navs, p, depth, whole);
        let before = walk(navs, p, depth, whole)->0;
        let ids = walk(navs, rows, depth, whole)->0;
        let m = before.len() as int;
        assert(ids[m] == rows.last().id);
        assert forall|i: int| 0 <= i < m implies ids[i] == before[i] by {}
        assert forall|i: int| 0 <= i < rows.len() implies ids.contains((#[trigger] rows[i]).id) by {
            if i < p.len() {
                assert(p[i] == rows[i]);
                let a = choose|a: int| 0 <= a < before.len() && before[a] == p[i].id;
                assert(ids[a] == rows[i].id);
            }
        }
        assert forall|i: int, j: int| 0 <= i < j < rows.len() implies stands_above(
            ids,
            (#[trigger] rows[i]).id,
            (#[trigger] rows[j]).id,
        ) by {
            assert(p[i] == rows[i]);
            if j < p.len() {
                assert(p[j] == rows[j]);
                let (a, b) = choose|a: int, b: int|
                    0 <= a < b < before.len() && #[trigger] before[a] == p[i].id
                        && #[trigger] before[b] == p[j].id;
                assert(ids[a] == rows[i].id && ids[b] == rows[j].id);
            } else {
                let a = choose|a: int| 0 <= a < before.len() && before[a] == p[i].id;
                assert(ids[a] == rows[i].id && ids[m] == rows[j].id);
            }
        }
    }
}

/// Whether an id is that of one of the rows, or of a row below one that is come by.
spec fn comes_from(
    navs: Seq<NavView>,
    rows: Seq<NavView>,
    ids: Seq<Seq<char>>,
    x: Seq<char>,
    whole: bool,
) -> bool {
    exists|n: NavView| #[trigger]
        navs.contains(n) && n.id == x && (rows.contains(n) || exists|p: NavView| #[trigger]
            navs.contains(p) && ids.contains(p.id) && rows_below(navs, p, whole).contains(n))
}

proof fn lemma_comes_from_more(
    navs: Seq<NavView>,
    rows: Seq<NavView>,
    ids: Seq<Seq<char>>,
    more_rows: Seq<NavView>,
    more: Seq<Seq<char>>,
    x: Seq<char>,
    whole: bool,
)
    requires
        comes_from(navs, rows, ids, x, whole),
        forall|n: NavView| #[trigger] rows.contains(n) ==> more_rows.contains(n),
        forall|y: Seq<char>| #[trigger] ids.contains(y) ==> more.contains(y),
    ensures
        comes_from(navs, more_rows, more, x, whole),
{
}

/// A walk comes by the rows below every row that it comes by, in their order, and by
/// nothing else but its rows.
proof fn lemma_walk_closed(
    navs: Seq<NavView>,
    rows: Seq<NavView>,
    depth: nat,
    whole: bool,
)
    requires
        walk(navs, rows, depth, whole) is Some,
        distinct(navs),
        forall|i: int| 0 <= i < rows.len() ==> navs.contains(#[trigger] rows[i]),
    ensures
        ({
            let ids = walk(navs, rows, depth, whole)->0;
            &&& forall|n: NavView|
                #[trigger] navs.contains(n) && ids.contains(n.id) ==> holds_in_order(
                    ids,
                    rows_below(navs, n, whole),
                )
            &&& forall|x: Seq<char>| #[trigger] ids.contains(x) ==> comes_from(navs, rows, ids, x, whole)
        }),
    decreases depth, rows.len(),
{
    if rows.len() > 0 {
        let p = rows.drop_last();
        let last = rows[rows.len() - 1];
        assert forall|i: int| 0 <= i < p.len() implies navs.contains(#[trigger] p[i]) by {
            assert(p[i] == rows[i]);
        }
        lemma_walk_closed(navs, p, depth, whole);
        let before = walk(navs, p, depth, whole)->0;
        let ids = walk(navs, rows, depth, whole)->0;
        let below = rows_below(navs, last, whole);
        let none = Seq::<Seq<char>>::empty();
        let sub = if below.len() > 0 {
            walk(navs, below, (depth - 1) as nat, whole)->0
        } else {
            none
        };
        assert(ids =~= before.push(last.id) + sub);
        if below.len() > 0 {
            assert forall|i: int| 0 <= i < below.len() implies navs.contains(
                #[trigger] below[i],
            ) by {
                assert(below.contains(below[i]));
                lemma_row_below(navs, last, whole, below[i]);
            }
            lemma_walk_holds_rows(navs, below, (depth - 1) as nat, whole);
            lemma_walk_closed(navs, below, (depth - 1) as nat, whole);
        }
        assert forall|n: NavView| #[trigger]
            navs.contains(n) && ids.contains(n.id) implies holds_in_order(
            ids,
            rows_below(navs, n, whole),
        ) by {
            let kids = rows_below(navs, n, whole);
            let a = choose|a: int| 0 <= a < ids.len() && ids[a] == n.id;
            if a < before.len() {
                assert(before[a] == n.id);
                lemma_holds_in_more(none, before, seq![last.id] + sub, kids);
                assert(none + before + (seq![last.id] + sub) =~= ids);
            } else if a == before.len() {
                assert(n == last) by {
                    let i = choose|i: int| 0 <= i < navs.len() && navs[i] == n;
                    let j = choose|j: int| 0 <= j < navs.len() && navs[j] == last;
                    assert(i == j) by {
                        if i < j {
                            assert(navs[i].id != navs[j].id);
                        }
                        if j < i {
                            assert(navs[j].id != navs[i].id);
                        }
                    }
                }
                if below.len() > 0 {
                    lemma_holds_in_more(before.push(last.id), sub, none, kids);
                    assert(before.push(last.id) + sub + none =~= ids);
                }
            } else {
                assert(sub[a - before.len() - 1] == n.id);
                lemma_holds_in_more(before.push(last.id), sub, none, kids);
                assert(before.push(last.id) + sub + none =~= ids);
            }
        }
        assert forall|y: Seq<char>| #[trigger] before.contains(y) implies ids.contains(y) by {
            let a = choose|a: int| 0 <= a < before.len() && before[a] == y;
            assert(ids[a] == y);
        }
        assert forall|y: Seq<char>| #[trigger] sub.contains(y) implies ids.contains(y) by {
            let a = choose|a: int| 0 <= a < sub.len() && sub[a] == y;
            assert(ids[before.len() + 1 + a] == y);
        }
        assert(ids[before.len() as int] == last.id);
        assert forall|n: NavView| #[trigger] p.contains(n) implies rows.contains(n) by {
            let i = choose|i: int| 0 <= i < p.len() && p[i] == n;
            assert(rows[i] == n);
        }
        assert forall|x: Seq<char>| #[trigger] ids.contains(x) implies comes_from(
            navs,
            rows,
            ids,
            x,
            whole,
        ) by {
            let a = choose|a: int| 0 <= a < ids.len() && ids[a] == x;
            if a < before.len() {
                assert(before[a] == x);
                assert(before.contains(x));
                lemma_comes_from_more(navs, p, before, rows, ids, x, whole);
            } else if a == before.len() {
                assert(navs.contains(last) && rows.contains(last));
            } else {
                assert(sub[a - before.len() - 1] == x);
                assert(sub.contains(x));
                assert(comes_from(navs, below, sub, x, whole));
                let n = choose|n: NavView| #[trigger]
                    navs.contains(n) && n.id == x && (below.contains(n) || exists|q: NavView|
                        #[trigger] navs.contains(q) && sub.contains(q.id) && rows_below(
                            navs,
                            q,
                            whole,
                        ).contains(n));
                if below.contains(n) {
                    assert(navs.contains(last) && ids.contains(last.id));
                } else {
                    let q = choose|q: NavView| #[trigger]
                        navs.contains(q) && sub.contains(q.id) && rows_below(
                            navs,
                            q,
                            whole,
                        ).contains(n);
                    assert(navs.contains(q) && ids.contains(q.id));
                }
            }
        }
    }
}

/// A row is shown exactly if it is live and its parent is the root of the outline, or a
/// shown row that is open.
pub proof fn law_rows_are_shown_below_open_rows(navs: Seq<NavView>, i: int)
    requires
        ids_ok(navs),
        outline_ends(navs),
        root_id(navs) is Some,
        0 <= i < navs.len(),
    ensures
        visible_ids(navs).contains(navs[i].id) <==> !navs[i].is_delete && (navs[i].parid == root_id(
            navs,
        )->0 || exists|p: int|
            0 <= p < navs.len() && (#[trigger] navs[p]).id == navs[i].parid && navs[p].is_display
                && visible_ids(navs).contains(navs[p].id)),
{
    let root = root_id(navs)->0;
    let top = top_rows(navs);
    let ids = visible_ids(navs);
    let depth = choose|depth: nat| #[trigger] walk(navs, top, depth, false) is Some;
    assert forall|j: int| 0 <= j < top.len() implies navs.contains(#[trigger] top[j]) by {
        assert(top.contains(top[j]));
        lemma_child_of(navs, root, false, top[j]);
    }
    lemma_walk_holds_rows(navs, top, depth, false);
    lemma_walk_closed(navs, top, depth, false);
    let me = navs[i];
    assert(navs.contains(me));
    if ids.contains(me.id) {
        assert(comes_from(navs, top, ids, me.id, false));
        let n = choose|n: NavView| #[trigger]
            navs.contains(n) && n.id == me.id && (top.contains(n) || exists|q: NavView| #[trigger]
                navs.contains(q) && ids.contains(q.id) && rows_below(navs, q, false).contains(n));
        let k = choose|k: int| 0 <= k < navs.len() && navs[k] == n;
        assert(k == i) by {
            if k < i {
                assert(navs[k].id != navs[i].id);
            }
            if i < k {
                assert(navs[i].id != navs[k].id);
            }
        }
        if top.contains(n) {
            lemma_child_of(navs, root, false, n);
        } else {
            let q = choose|q: NavView| #[trigger]
                navs.contains(q) && ids.contains(q.id) && rows_below(navs, q, false).contains(n);
            lemma_row_below(navs, q, false, n);
            let p = choose|p: int| 0 <= p < navs.len() && navs[p] == q;
            assert(navs[p].id == me.parid);
        }
    }
    if !me.is_delete {
        lemma_children_of(navs, me.parid, false);
        lemma_ranked_contains(children_of(navs, me.parid, false), false, me);
        let sibs = ranked_children(navs, me.parid, false);
        let j = choose|j: int| 0 <= j < sibs.len() && sibs[j] == me;
        if me.parid == root {
            assert(ids.contains(top[j].id));
        } else if exists|p: int|
            0 <= p < navs.len() && (#[trigger] navs[p]).id == me.parid && navs[p].is_display
                && ids.contains(navs[p].id) {
            let p = choose|p: int|
                0 <= p < navs.len() && (#[trigger] navs[p]).id == me.parid && navs[p].is_display
                    && ids.contains(navs[p].id);
            assert(navs.contains(navs[p]));
            assert(holds_in_order(ids, sibs));
            assert(ids.contains(sibs[j].id));
        }
    }
}

/// Of two shown rows with one parent the one with the lower rank is shown above the other.
pub proof fn law_siblings_are_shown_by_rank(navs: Seq<NavView>, i: int, j: int)
    requires
        ids_ok(navs),
        outline_ends(navs),
        root_id(navs) is Some,
        0 <= i < navs.len(),
        0 <= j < navs.len(),
        navs[i].parid == navs[j].parid,
        navs[i].same_deep_order < navs[j].same_deep_order,
        visible_ids(navs).contains(navs[i].id),
        visible_ids(navs).contains(navs[j].id),
    ensures
        stands_above(visible_ids(navs), navs[i].id, navs[j].id),
{
    let root = root_id(navs)->0;
    let top = top_rows(navs);
    let ids = visible_ids(navs);
    let depth = choose|depth: nat| #[trigger] walk(navs, top, depth, false) is Some;
    assert forall|k: int| 0 <= k < top.len() implies navs.contains(#[trigger] top[k]) by {
        assert(top.contains(top[k]));
        lemma_child_of(navs, root, false, top[k]);
    }
    lemma_walk_holds_rows(navs, top, depth, false);
    lemma_walk_closed(navs, top, depth, false);
    law_rows_are_shown_below_open_rows(navs, i);
    law_rows_are_shown_below_open_rows(navs, j);
    let parid = navs[i].parid;
    let kids = children_of(navs, parid, false);
    let sibs = ranked_children(navs, parid, false);
    lemma_children_of(navs, parid, false);
    lemma_ranked_contains(kids, false, navs[i]);
    lemma_ranked_contains(kids, false, navs[j]);
    law_ranked_is_in_order(kids, false);
    let a = choose|a: int| 0 <= a < sibs.len() && sibs[a] == navs[i];
    let b = choose|b: int| 0 <= b < sibs.len() && sibs[b] == navs[j];
    if b < a {
        assert(may_follow(sibs[b], sibs[a], false));
    }
    assert(a < b);
    assert(holds_in_order(ids, sibs)) by {
        if parid != root {
            let p = choose|p: int|
                0 <= p < navs.len() && (#[trigger] navs[p]).id == parid && navs[p].is_display
                    && ids.contains(navs[p].id);
            assert(navs.contains(navs[p]));
        }
    }
    assert(stands_above(ids, sibs[a].id, sibs[b].id));
}

/// What hangs below a row is just the rows whose parent is that row or hangs below it,
/// deleted or not.
pub proof fn law_subtree_is_all_that_hangs_below(navs: Seq<NavView>, id: Seq<char>, i: int)
    requires
        ids_ok(navs),
        subtree_ends(navs, id),
        0 <= i < navs.len(),
        navs[i].id != id,
    ensures
        subtree_ids(navs, id).contains(navs[i].id) <==> navs[i].parid == id || exists|p: int|
            0 <= p < navs.len() && (#[trigger] navs[p]).id == navs[i].parid && navs[p].id != id
                && subtree_ids(navs, id).contains(navs[p].id),
{
    let kids = children_of(navs, id, true);
    let depth = choose|depth: nat| #[trigger] walk(navs, kids, depth, true) is Some;
    lemma_children_of(navs, id, true);
    lemma_walk_holds_rows(navs, kids, depth, true);
    lemma_walk_closed(navs, kids, depth, true);
    let ids = walk(navs, kids, depth, true)->0;
    let all = subtree_ids(navs, id);
    assert(all == seq![id] + ids);
    assert forall|x: Seq<char>| x != id implies (#[trigger] all.contains(x) <==> ids.contains(
        x,
    )) by {
        if all.contains(x) {
            let a = choose|a: int| 0 <= a < all.len() && all[a] == x;
            assert(ids[a - 1] == x);
        }
        if ids.contains(x) {
            let a = choose|a: int| 0 <= a < ids.len() && ids[a] == x;
            assert(all[a + 1] == x);
        }
    }
    let me = navs[i];
    assert(navs.contains(me));
    if ids.contains(me.id) && me.parid != id {
        assert(comes_from(navs, kids, ids, me.id, true));
        let n = choose|n: NavView| #[trigger]
            navs.contains(n) && n.id == me.id && (kids.contains(n) || exists|q: NavView| #[trigger]
                navs.contains(q) && ids.contains(q.id) && rows_below(navs, q, true).contains(n));
        let k = choose|k: int| 0 <= k < navs.len() && navs[k] == n;
        assert(k == i) by {
            if k < i {
                assert(navs[k].id != navs[i].id);
            }
            if i < k {
                assert(navs[i].id != navs[k].id);
            }
        }
        if kids.contains(n) {
            let a = choose|a: int| 0 <= a < kids.len() && kids[a] == n;
            assert(kids[a].parid == id);
        }
        let q = choose|q: NavView| #[trigger]
            navs.contains(q) && ids.contains(q.id) && rows_below(navs, q, true).contains(n);
        lemma_row_below(navs, q, true, n);
        let p = choose|p: int| 0 <= p < navs.len() && navs[p] == q;
        assert(navs[p].id == me.parid);
    }
    lemma_children_of(navs, me.parid, true);
    let sibs = children_of(navs, me.parid, true);
    assert(sibs.contains(navs[i]));
    let j = choose|j: int| 0 <= j < sibs.len() && sibs[j] == me;
    if me.parid == id {
        assert(ids.contains(kids[j].id));
    } else if exists|p: int|
        0 <= p < navs.len() && (#[trigger] navs[p]).id == me.parid && navs[p].id != id
            && all.contains(navs[p].id) {
        let p = choose|p: int|
            0 <= p < navs.len() && (#[trigger] navs[p]).id == me.parid && navs[p].id != id
                && all.contains(navs[p].id);
        assert(navs.contains(navs[p]));
        assert(holds_in_order(ids, rows_below(navs, navs[p], true)));
        assert(ids.contains(sibs[j].id));
    }
}

} // verus!
