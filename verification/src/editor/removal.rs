//! Laws of deleting rows.

use vstd::prelude::*;

verus! {

use crate::editor::forest::{
    ids_ok, is_forest, law_forest_ends, law_visible_rows_are_live_and_below_their_parents,
    lemma_child_of, levels_fall, shown_below,
};
use crate::editor::moves::{lemma_place_in, place_in};
use crate::editor::rows::without_ids;
use crate::editor::session::SessionView;
use crate::editor::siblings::{children_of, lemma_children_of};
use crate::editor::tree::{
    lemma_walked, may_delete, root_id, rows_below, subtree_ids, visible_ids, walk,
};
use crate::editor::typing::{focus_after, without_row};
use crate::editor::visible::law_visible_ids_are_distinct;
use crate::models::{lemma_nav_index, nav_index, NavView};
use crate::text::is_blank;

/// Taking out rows by their ids takes out those and no others.
pub proof fn law_removal_is_exact(navs: Seq<NavView>, ids: Seq<Seq<char>>, n: NavView)
    ensures
        without_ids(navs, ids).contains(n) == (navs.contains(n) && !ids.contains(n.id)),
    decreases navs.len(),
{
    if navs.len() > 0 {
        let p = navs.drop_last();
        let last = navs.last();
        law_removal_is_exact(p, ids, n);
        let rest = without_ids(p, ids);
        let r = without_ids(navs, ids);
        assert(navs[navs.len() - 1] == last);
        if p.contains(n) {
            let k = choose|k: int| 0 <= k < p.len() && p[k] == n;
            assert(navs[k] == n);
        }
        if navs.contains(n) && n != last {
            let k = choose|k: int| 0 <= k < navs.len() && navs[k] == n;
            assert(p[k] == n);
        }
        if rest.contains(n) {
            let k = choose|k: int| 0 <= k < rest.len() && rest[k] == n;
            assert(r[k] == n);
        }
        if r.contains(n) && !rest.contains(n) {
            let k = choose|k: int| 0 <= k < r.len() && r[k] == n;
            if k < rest.len() {
                assert(rest[k] == n);
            }
        }
        if !ids.contains(last.id) {
            assert(r[r.len() - 1] == last);
        }
    }
}

proof fn lemma_removal_keeps_ids(navs: Seq<NavView>, ids: Seq<Seq<char>>)
    requires
        ids_ok(navs),
    ensures
        ids_ok(without_ids(navs, ids)),
    decreases navs.len(),
{
    if navs.len() > 0 {
        let p = navs.drop_last();
        let last = navs.last();
        assert forall|i: int, j: int| 0 <= i < j < p.len() implies p[i].id != p[j].id by {
            assert(navs[i].id != navs[j].id);
        }
        assert forall|i: int| 0 <= i < p.len() implies !is_blank(#[trigger] p[i].id) by {
            assert(!is_blank(navs[i].id));
        }
        lemma_removal_keeps_ids(p, ids);
        let rest = without_ids(p, ids);
        let r = without_ids(navs, ids);
        assert forall|i: int, j: int| 0 <= i < j < r.len() implies r[i].id != r[j].id by {
            if j < rest.len() {
                assert(rest[i].id != rest[j].id);
            } else {
                assert(rest.contains(rest[i]));
                law_removal_is_exact(p, ids, rest[i]);
                let k = choose|k: int| 0 <= k < p.len() && p[k] == rest[i];
                assert(navs[k].id != navs[navs.len() - 1].id);
            }
        }
        assert forall|i: int| 0 <= i < r.len() implies !is_blank(#[trigger] r[i].id) by {
            if i < rest.len() {
                assert(!is_blank(rest[i].id));
            } else {
                assert(!is_blank(navs[navs.len() - 1].id));
            }
        }
    }
}

/// Taking out rows keeps trees trees.
pub proof fn law_removal_keeps_forest(navs: Seq<NavView>, ids: Seq<Seq<char>>)
    requires
        is_forest(navs),
    ensures
        is_forest(without_ids(navs, ids)),
{
    let level = choose|level: spec_fn(Seq<char>) -> nat| levels_fall(navs, level);
    let r = without_ids(navs, ids);
    lemma_removal_keeps_ids(navs, ids);
    assert forall|i: int| 0 <= i < r.len() implies level((#[trigger] r[i]).id) < level(
        r[i].parid,
    ) by {
        assert(r.contains(r[i]));
        law_removal_is_exact(navs, ids, r[i]);
        let k = choose|k: int| 0 <= k < navs.len() && navs[k] == r[i];
        assert(level(navs[k].id) < level(navs[k].parid));
    }
    assert(levels_fall(r, level));
}

/// A shown row lies on a lower level than the root of the outline.
proof fn lemma_visible_level(navs: Seq<NavView>, level: spec_fn(Seq<char>) -> nat, i: int)
    requires
        is_forest(navs),
        levels_fall(navs, level),
        0 <= i < visible_ids(navs).len(),
    ensures
        root_id(navs) is Some,
        level(visible_ids(navs)[i]) < level(root_id(navs)->0),
    decreases i,
{
    let ids = visible_ids(navs);
    law_forest_ends(navs, ids[i]);
    law_visible_rows_are_live_and_below_their_parents(navs);
    let root = root_id(navs)->0;
    assert(shown_below(navs, root, ids.take(i), ids[i]));
    let k = choose|k: int|
        0 <= k < navs.len() && (#[trigger] navs[k]).id == ids[i] && !navs[k].is_delete && (
        navs[k].parid == root || ids.take(i).contains(navs[k].parid));
    assert(level(navs[k].id) < level(navs[k].parid));
    if navs[k].parid != root {
        let j = choose|j: int| 0 <= j < ids.take(i).len() && ids.take(i)[j] == navs[k].parid;
        assert(ids[j] == navs[k].parid);
        lemma_visible_level(navs, level, j);
    }
}

/// A child of a row that is not shown is not shown, unless that row is the root.
proof fn lemma_child_is_hidden(navs: Seq<NavView>, n: NavView)
    requires
        is_forest(navs),
        navs.contains(n),
        n.is_delete || (!visible_ids(navs).contains(n.parid) && root_id(navs) != Some(n.parid)),
    ensures
        !visible_ids(navs).contains(n.id),
{
    let ids = visible_ids(navs);
    if ids.contains(n.id) {
        let i = choose|i: int| 0 <= i < ids.len() && ids[i] == n.id;
        law_forest_ends(navs, n.id);
        law_visible_rows_are_live_and_below_their_parents(navs);
        let root = root_id(navs)->0;
        assert(shown_below(navs, root, ids.take(i), ids[i]));
        let k = choose|k: int|
            0 <= k < navs.len() && (#[trigger] navs[k]).id == ids[i] && !navs[k].is_delete && (
            navs[k].parid == root || ids.take(i).contains(navs[k].parid));
        let m = choose|m: int| 0 <= m < navs.len() && navs[m] == n;
        assert(k == m) by {
            if k < m {
                assert(navs[k].id != navs[m].id);
            }
            if m < k {
                assert(navs[m].id != navs[k].id);
            }
        }
        if ids.take(i).contains(n.parid) {
            let j = choose|j: int| 0 <= j < ids.take(i).len() && ids.take(i)[j] == n.parid;
            assert(ids[j] == n.parid);
        }
    }
}

/// What hangs below hidden rows is hidden.
proof fn lemma_walk_is_hidden(
    navs: Seq<NavView>,
    level: spec_fn(Seq<char>) -> nat,
    rows: Seq<NavView>,
    depth: nat,
)
    requires
        is_forest(navs),
        levels_fall(navs, level),
        root_id(navs) is Some,
        walk(navs, rows, depth, true) is Some,
        forall|i: int|
            0 <= i < rows.len() ==> navs.contains(#[trigger] rows[i]) && !visible_ids(
                navs,
            ).contains(rows[i].id) && level(rows[i].id) < level(root_id(navs)->0),
    ensures
        ({
            let ids = walk(navs, rows, depth, true)->0;
            forall|i: int| 0 <= i < ids.len() ==> !visible_ids(navs).contains(#[trigger] ids[i])
        }),
    decreases depth, rows.len(),
{
    if rows.len() > 0 {
        let p = rows.drop_last();
        let n = rows.last();
        assert(rows[rows.len() - 1] == n);
        assert forall|i: int| 0 <= i < p.len() implies navs.contains(#[trigger] p[i])
            && !visible_ids(navs).contains(p[i].id) && level(p[i].id) < level(
            root_id(navs)->0,
        ) by {
            assert(rows[i] == p[i]);
        }
        lemma_walk_is_hidden(navs, level, p, depth);
        let before = walk(navs, p, depth, true)->0;
        let below = rows_below(navs, n, true);
        let ids = walk(navs, rows, depth, true)->0;
        if below.len() > 0 {
            assert forall|i: int| 0 <= i < below.len() implies navs.contains(#[trigger] below[i])
                && !visible_ids(navs).contains(below[i].id) && level(below[i].id) < level(
                root_id(navs)->0,
            ) by {
                assert(below.contains(below[i]));
                lemma_child_of(navs, n.id, true, below[i]);
                let k = choose|k: int| 0 <= k < navs.len() && navs[k] == below[i];
                assert(level(navs[k].id) < level(navs[k].parid));
                lemma_child_is_hidden(navs, below[i]);
            }
            lemma_walk_is_hidden(navs, level, below, (depth - 1) as nat);
            let sub = walk(navs, below, (depth - 1) as nat, true)->0;
            assert(ids =~= before.push(n.id) + sub);
            assert forall|i: int| 0 <= i < ids.len() implies !visible_ids(navs).contains(
                #[trigger] ids[i],
            ) by {
                if i < before.len() {
                    assert(ids[i] == before[i]);
                } else if i > before.len() {
                    assert(ids[i] == sub[i - before.len() - 1]);
                }
            }
        } else {
            assert forall|i: int| 0 <= i < ids.len() implies !visible_ids(navs).contains(
                #[trigger] ids[i],
            ) by {
                if i < before.len() {
                    assert(ids[i] == before[i]);
                }
            }
        }
    }
}

/// Deleting a shown row takes no other shown row along.
pub proof fn law_delete_takes_one_shown_row(navs: Seq<NavView>, id: Seq<char>)
    requires
        is_forest(navs),
        may_delete(navs, id),
        visible_ids(navs).contains(id),
    ensures
        forall|x: Seq<char>|
            #[trigger] visible_ids(navs).contains(x) && subtree_ids(navs, id).contains(x) ==> x
                == id,
{
    let level = choose|level: spec_fn(Seq<char>) -> nat| levels_fall(navs, level);
    let ids = visible_ids(navs);
    let i = choose|i: int| 0 <= i < ids.len() && ids[i] == id;
    lemma_visible_level(navs, level, i);
    law_forest_ends(navs, id);
    let kids = children_of(navs, id, true);
    lemma_children_of(navs, id, true);
    lemma_children_of(navs, id, false);
    assert forall|j: int| 0 <= j < kids.len() implies navs.contains(#[trigger] kids[j])
        && !visible_ids(navs).contains(kids[j].id) && level(kids[j].id) < level(
        root_id(navs)->0,
    ) by {
        let k = choose|k: int| 0 <= k < navs.len() && navs[k] == kids[j];
        assert(level(navs[k].id) < level(navs[k].parid));
        if !navs[k].is_delete {
            assert(children_of(navs, id, false).contains(navs[k]));
        }
        lemma_child_is_hidden(navs, kids[j]);
    }
    let depth = choose|depth: nat| #[trigger] walk(navs, kids, depth, true) is Some;
    lemma_walked(navs, kids, depth, true);
    lemma_walk_is_hidden(navs, level, kids, depth);
    let sub = walk(navs, kids, depth, true)->0;
    let gone = subtree_ids(navs, id);
    assert(gone =~= seq![id] + sub);
    assert forall|x: Seq<char>| #[trigger] visible_ids(navs).contains(x) && gone.contains(x) implies x
        == id by {
        let j = choose|j: int| 0 <= j < gone.len() && gone[j] == x;
        if j > 0 {
            assert(sub[j - 1] == x);
        }
    }
}

/// Once a shown row is deleted, the row that is open is there.
pub proof fn law_open_row_is_there_after_delete(v: SessionView, id: Seq<char>)
    requires
        is_forest(v.navs),
        may_delete(v.navs, id),
        visible_ids(v.navs).contains(id),
    ensures
        without_row(v, id).editing_id matches Some(open) ==> nav_index(
            without_row(v, id).navs,
            open,
        ) is Some,
{
    let ids = visible_ids(v.navs);
    lemma_place_in(ids, id);
    law_visible_ids_are_distinct(v.navs);
    law_delete_takes_one_shown_row(v.navs, id);
    if let Some(open) = focus_after(ids, id) {
        let i = place_in(ids, id)->0;
        let j = if i > 0 {
            i - 1
        } else {
            i + 1
        };
        assert(ids[j] == open);
        assert(ids.contains(open));
        law_forest_ends(v.navs, id);
        law_visible_rows_are_live_and_below_their_parents(v.navs);
        assert(shown_below(v.navs, root_id(v.navs)->0, ids.take(j), ids[j]));
        let k = choose|k: int| 0 <= k < v.navs.len() && (#[trigger] v.navs[k]).id == ids[j];
        let n = v.navs[k];
        law_removal_is_exact(v.navs, subtree_ids(v.navs, id), n);
        let rest = without_row(v, id).navs;
        lemma_nav_index(rest, open);
        let m = choose|m: int| 0 <= m < rest.len() && rest[m] == n;
        assert(rest[m].id == open);
    }
}

} // verus!
