//! Where a row goes: by keys, by Enter and by drag and drop.

use crate::editor::ordering::{midpoint_or_append, OrderRule};
use crate::editor::siblings::{collect_children, rank_rows, remove_id, sorted_children};
use crate::editor::tree::root_container_id;
use crate::models::{find_nav, Nav, ROOT_CONTAINER_PARENT_ID};
use crate::text::{opt_str_eq, str_eq};
use vstd::prelude::*;

verus! {

use crate::editor::rows::with_place;
use crate::editor::siblings::{
    children_of, lemma_children_of, lemma_ranked_contains, ranked, ranked_children, without_id,
};
use crate::editor::forest::{
    hangs_below, is_forest, is_shallow_forest, law_ancestor_search_is_complete,
    law_move_keeps_forest, lemma_reaches_raises, levels_fall,
};
use crate::editor::tree::{is_ancestor, reaches, root_id};
use crate::models::{lemma_nav_index, nav_index, nav_views, opt_view, NavView};

// ---- looking along siblings ----

/// The rank of the first row that stands above a rank.
pub open spec fn first_rank_above(rows: Seq<NavView>, rank: int) -> Option<int>
    decreases rows.len(),
{
    if rows.len() == 0 {
        None
    } else {
        match first_rank_above(rows.drop_last(), rank) {
            Some(r) => Some(r),
            None => if rows.last().same_deep_order > rank {
                Some(rows.last().same_deep_order)
            } else {
                None
            },
        }
    }
}

/// The id of the last row that stands below a rank.
pub open spec fn last_id_below(rows: Seq<NavView>, rank: int) -> Option<Seq<char>>
    decreases rows.len(),
{
    if rows.len() == 0 {
        None
    } else if rows.last().same_deep_order < rank {
        Some(rows.last().id)
    } else {
        last_id_below(rows.drop_last(), rank)
    }
}

/// The highest rank of rows.
pub open spec fn highest_rank(rows: Seq<NavView>) -> Option<int>
    decreases rows.len(),
{
    if rows.len() == 0 {
        None
    } else {
        match highest_rank(rows.drop_last()) {
            None => Some(rows.last().same_deep_order),
            Some(r) => Some(
                if rows.last().same_deep_order >= r {
                    rows.last().same_deep_order
                } else {
                    r
                },
            ),
        }
    }
}

proof fn lemma_first_rank_above_prefix(rows: Seq<NavView>, k: int, rank: int)
    requires
        0 <= k <= rows.len(),
        first_rank_above(rows.take(k), rank) is Some,
    ensures
        first_rank_above(rows, rank) == first_rank_above(rows.take(k), rank),
    decreases rows.len() - k,
{
    if k < rows.len() {
        assert(rows.take(k + 1).drop_last() =~= rows.take(k));
        lemma_first_rank_above_prefix(rows, k + 1, rank);
    } else {
        assert(rows.take(k) =~= rows);
    }
}

fn first_rank_above_of(rows: &[Nav], rank: i32) -> (r: Option<i32>)
    ensures
        match r {
            Some(x) => first_rank_above(nav_views(rows@), rank as int) == Some(x as int),
            None => first_rank_above(nav_views(rows@), rank as int) is None,
        },
{
    let ghost vs = nav_views(rows@);
    let mut i: usize = 0;
    while i < rows.len()
        invariant
            i <= rows@.len(),
            vs == nav_views(rows@),
            first_rank_above(vs.take(i as int), rank as int) is None,
        decreases rows@.len() - i,
    {
        proof {
            assert(vs.take(i + 1).drop_last() =~= vs.take(i as int));
            assert(vs.take(i + 1).last() == rows@[i as int]@);
        }
        if rows[i].same_deep_order > rank {
            proof {
                lemma_first_rank_above_prefix(vs, i + 1, rank as int);
            }
            return Some(rows[i].same_deep_order);
        }
        i = i + 1;
    }
    assert(vs.take(i as int) =~= vs);
    None
}

fn last_id_below_of(rows: &[Nav], rank: i32) -> (r: Option<String>)
    ensures
        opt_view(r) == last_id_below(nav_views(rows@), rank as int),
{
    let ghost vs = nav_views(rows@);
    let mut i: usize = rows.len();
    assert(vs.take(i as int) =~= vs);
    while i > 0
        invariant
            i <= rows@.len(),
            vs == nav_views(rows@),
            last_id_below(vs, rank as int) == last_id_below(vs.take(i as int), rank as int),
        decreases i,
    {
        proof {
            assert(vs.take(i as int).drop_last() =~= vs.take(i - 1));
            assert(vs.take(i as int).last() == rows@[i - 1]@);
        }
        if rows[i - 1].same_deep_order < rank {
            return Some(rows[i - 1].id.clone());
        }
        i = i - 1;
    }
    None
}

fn highest_rank_of(rows: &[Nav]) -> (r: Option<i32>)
    ensures
        match r {
            Some(x) => highest_rank(nav_views(rows@)) == Some(x as int),
            None => highest_rank(nav_views(rows@)) is None,
        },
{
    let ghost vs = nav_views(rows@);
    let mut best: Option<i32> = None;
    let mut i: usize = 0;
    assert(vs.take(0) =~= Seq::<NavView>::empty());
    while i < rows.len()
        invariant
            i <= rows@.len(),
            vs == nav_views(rows@),
            match best {
                Some(x) => highest_rank(vs.take(i as int)) == Some(x as int),
                None => highest_rank(vs.take(i as int)) is None,
            },
        decreases rows@.len() - i,
    {
        proof {
            assert(vs.take(i + 1).drop_last() =~= vs.take(i as int));
            assert(vs.take(i + 1).last() == rows@[i as int]@);
        }
        let rank: i32 = rows[i].same_deep_order;
        best = match best {
            None => Some(rank),
            Some(x) => if rank >= x {
                Some(rank)
            } else {
                Some(x)
            },
        };
        i = i + 1;
    }
    assert(vs.take(i as int) =~= vs);
    best
}

// ---- the arrow keys at the edges of a row ----

/// Where the caret goes from the start of a row: to the sibling before it, or else to
/// its parent, unless that is the root.
pub open spec fn left_target(navs: Seq<NavView>, id: Seq<char>) -> Option<Seq<char>> {
    match nav_index(navs, id) {
        None => None,
        Some(m) => {
            let me = navs[m];
            match last_id_below(ranked_children(navs, me.parid, true), me.same_deep_order) {
                Some(prev) => Some(prev),
                None => if me.parid == ROOT_CONTAINER_PARENT_ID@ || root_id(navs) == Some(me.parid)
                    || nav_index(navs, me.parid) is None {
                    None
                } else {
                    Some(me.parid)
                },
            }
        },
    }
}

/// Where the caret goes from the start of a row.
pub fn arrow_left_boundary_target_id(navs: &[Nav], current_id: &str) -> (r: Option<String>)
    ensures
        opt_view(r) == left_target(nav_views(navs@), current_id@),
{
    let ghost vs = nav_views(navs@);
    match find_nav(navs, current_id) {
        None => None,
        Some(m) => {
            assert(vs[m as int] == navs@[m as int]@);
            let me: &Nav = &navs[m];
            let siblings = sorted_children(navs, me.parid.as_str(), true);
            let prev = last_id_below_of(siblings.as_slice(), me.same_deep_order);
            if prev.is_some() {
                return prev;
            }
            if str_eq(me.parid.as_str(), ROOT_CONTAINER_PARENT_ID) {
                return None;
            }
            let root = root_container_id(navs);
            if opt_str_eq(&root, me.parid.as_str()) {
                return None;
            }
            match find_nav(navs, me.parid.as_str()) {
                None => None,
                Some(p) => Some(navs[p].id.clone()),
            }
        },
    }
}

/// Where the caret goes from the end of a row: to its first live child, and whether the
/// row has to be opened for that.
pub open spec fn right_target(navs: Seq<NavView>, id: Seq<char>) -> Option<(Seq<char>, bool)> {
    match nav_index(navs, id) {
        None => None,
        Some(m) => {
            let kids = ranked_children(navs, id, false);
            if kids.len() == 0 {
                None
            } else {
                Some((kids[0].id, !navs[m].is_display))
            }
        },
    }
}

/// Where the caret goes from the end of a row.
pub fn arrow_right_boundary_target(navs: &[Nav], current_id: &str) -> (r: Option<(String, bool)>)
    ensures
        match r {
            Some((id, open)) => right_target(nav_views(navs@), current_id@) == Some((id@, open)),
            None => right_target(nav_views(navs@), current_id@) is None,
        },
{
    let ghost vs = nav_views(navs@);
    match find_nav(navs, current_id) {
        None => None,
        Some(m) => {
            assert(vs[m as int] == navs@[m as int]@);
            let kids = sorted_children(navs, current_id, false);
            assert(nav_views(kids@).len() == kids@.len());
            if kids.len() == 0 {
                return None;
            }
            assert(nav_views(kids@)[0] == kids@[0]@);
            Some((kids[0].id.clone(), !navs[m].is_display))
        },
    }
}

// ---- moving among siblings ----

/// The order number of a row that moves up, or down, past one sibling: halfway between
/// that sibling and the next. There is none at the end of the row's way.
pub open spec fn move_rule(navs: Seq<NavView>, id: Seq<char>, up: bool) -> Option<OrderRule> {
    match nav_index(navs, id) {
        None => None,
        Some(m) => {
            let sibs = ranked_children(navs, navs[m].parid, true);
            match nav_index(sibs, id) {
                None => None,
                Some(k) => if up {
                    if k == 0 {
                        None
                    } else if k >= 2 {
                        Some(
                            OrderRule::Between(
                                sibs[k - 2].same_deep_order as i32,
                                sibs[k - 1].same_deep_order as i32,
                            ),
                        )
                    } else {
                        Some(OrderRule::HalfBefore(sibs[k - 1].same_deep_order as i32))
                    }
                } else {
                    if k + 1 >= sibs.len() {
                        None
                    } else if k + 2 < sibs.len() {
                        Some(
                            OrderRule::Between(
                                sibs[k + 1].same_deep_order as i32,
                                sibs[k + 2].same_deep_order as i32,
                            ),
                        )
                    } else {
                        Some(OrderRule::HalfAfter(sibs[k + 1].same_deep_order as i32))
                    }
                },
            }
        },
    }
}

/// The order number of a row that moves past one sibling.
pub fn move_among_siblings(all: &[Nav], id: &str, up: bool) -> (r: Option<OrderRule>)
    ensures
        r == move_rule(nav_views(all@), id@, up),
{
    let ghost vs = nav_views(all@);
    match find_nav(all, id) {
        None => None,
        Some(m) => {
            assert(vs[m as int] == all@[m as int]@);
            let sibs = sorted_children(all, all[m].parid.as_str(), true);
            let ghost ss = nav_views(sibs@);
            let n: usize = sibs.len();
            match find_nav(sibs.as_slice(), id) {
                None => None,
                Some(k) => {
                    assert forall|j: int| 0 <= j < n implies #[trigger] ss[j] == sibs@[j]@ by {}
                    if up {
                        if k == 0 {
                            None
                        } else if k >= 2 {
                            Some(
                                OrderRule::Between(
                                    sibs[k - 2].same_deep_order,
                                    sibs[k - 1].same_deep_order,
                                ),
                            )
                        } else {
                            Some(OrderRule::HalfBefore(sibs[k - 1].same_deep_order))
                        }
                    } else {
                        if k >= n - 1 {
                            None
                        } else if k + 1 < n - 1 {
                            Some(
                                OrderRule::Between(
                                    sibs[k + 1].same_deep_order,
                                    sibs[k + 2].same_deep_order,
                                ),
                            )
                        } else {
                            Some(OrderRule::HalfAfter(sibs[k + 1].same_deep_order))
                        }
                    }
                },
            }
        },
    }
}

/// The order number of a new row behind a row: halfway to the next sibling.
pub open spec fn sibling_after_rule(navs: Seq<NavView>, id: Seq<char>) -> Option<OrderRule> {
    match nav_index(navs, id) {
        None => None,
        Some(m) => Some(
            behind_rule(ranked_children(navs, navs[m].parid, true), navs[m].same_deep_order),
        ),
    }
}

/// The order number of a row put behind a rank.
pub open spec fn behind_rule(rows: Seq<NavView>, rank: int) -> OrderRule {
    match first_rank_above(rows, rank) {
        Some(next) => OrderRule::Between(rank as i32, next as i32),
        None => OrderRule::OneAfter(rank as i32),
    }
}

/// The parent and the order number of a new row behind a row.
pub fn place_sibling_after(all: &[Nav], id: &str) -> (r: Option<(String, OrderRule)>)
    ensures
        match r {
            Some((parid, rule)) => nav_index(nav_views(all@), id@) matches Some(m) && parid@
                == nav_views(all@)[m].parid && sibling_after_rule(nav_views(all@), id@) == Some(
                rule,
            ),
            None => nav_index(nav_views(all@), id@) is None,
        },
{
    let ghost vs = nav_views(all@);
    match find_nav(all, id) {
        None => None,
        Some(m) => {
            assert(vs[m as int] == all@[m as int]@);
            let sibs = sorted_children(all, all[m].parid.as_str(), true);
            let next = first_rank_above_of(sibs.as_slice(), all[m].same_deep_order);
            Some((all[m].parid.clone(), midpoint_or_append(all[m].same_deep_order, next)))
        },
    }
}

// ---- moving between levels ----

/// The parent and the order number of a row that moves one level down: it becomes the
/// last child of the live sibling before it. Siblings of one rank stand by their ids.
pub open spec fn indent_target(navs: Seq<NavView>, id: Seq<char>) -> Option<(Seq<char>, OrderRule)> {
    match nav_index(navs, id) {
        None => None,
        Some(m) => {
            let sibs = ranked(children_of(navs, navs[m].parid, false), true);
            match nav_index(sibs, id) {
                None => None,
                Some(k) => if k == 0 {
                    None
                } else {
                    let parid = sibs[k - 1].id;
                    Some(
                        (
                            parid,
                            match highest_rank(children_of(navs, parid, false)) {
                                Some(r) => OrderRule::OneAfter(r as i32),
                                None => OrderRule::AfterFirst,
                            },
                        ),
                    )
                },
            }
        },
    }
}

/// The parent and the order number of a row that moves one level down.
pub fn place_indented(all: &[Nav], id: &str) -> (r: Option<(String, OrderRule)>)
    ensures
        match r {
            Some((parid, rule)) => indent_target(nav_views(all@), id@) == Some((parid@, rule)),
            None => indent_target(nav_views(all@), id@) is None,
        },
{
    let ghost vs = nav_views(all@);
    match find_nav(all, id) {
        None => None,
        Some(m) => {
            assert(vs[m as int] == all@[m as int]@);
            let sibs = rank_rows(collect_children(all, all[m].parid.as_str(), false), true);
            match find_nav(sibs.as_slice(), id) {
                None => None,
                Some(k) => {
                    if k == 0 {
                        return None;
                    }
                    assert(nav_views(sibs@)[k - 1] == sibs@[k - 1]@);
                    let parid = sibs[k - 1].id.clone();
                    let kids = collect_children(all, parid.as_str(), false);
                    let rule = match highest_rank_of(kids.as_slice()) {
                        Some(r) => OrderRule::OneAfter(r),
                        None => OrderRule::AfterFirst,
                    };
                    Some((parid, rule))
                },
            }
        },
    }
}

/// The parent and the order number of a row that moves one level up: it goes right
/// behind its parent. Rows at the top stay where they are.
pub open spec fn outdent_target(navs: Seq<NavView>, id: Seq<char>) -> Option<(Seq<char>, OrderRule)> {
    match nav_index(navs, id) {
        None => None,
        Some(m) => if navs[m].parid == ROOT_CONTAINER_PARENT_ID@ {
            None
        } else {
            match nav_index(navs, navs[m].parid) {
                None => None,
                Some(p) => if navs[p].parid == ROOT_CONTAINER_PARENT_ID@ {
                    None
                } else {
                    Some(
                        (
                            navs[p].parid,
                            behind_rule(
                                ranked_children(navs, navs[p].parid, false),
                                navs[p].same_deep_order,
                            ),
                        ),
                    )
                },
            }
        },
    }
}

/// The parent and the order number of a row that moves one level up.
pub fn place_outdented(all: &[Nav], id: &str) -> (r: Option<(String, OrderRule)>)
    ensures
        match r {
            Some((parid, rule)) => outdent_target(nav_views(all@), id@) == Some((parid@, rule)),
            None => outdent_target(nav_views(all@), id@) is None,
        },
{
    let ghost vs = nav_views(all@);
    match find_nav(all, id) {
        None => None,
        Some(m) => {
            assert(vs[m as int] == all@[m as int]@);
            if str_eq(all[m].parid.as_str(), ROOT_CONTAINER_PARENT_ID) {
                return None;
            }
            match find_nav(all, all[m].parid.as_str()) {
                None => None,
                Some(p) => {
                    assert(vs[p as int] == all@[p as int]@);
                    if str_eq(all[p].parid.as_str(), ROOT_CONTAINER_PARENT_ID) {
                        return None;
                    }
                    let sibs = sorted_children(all, all[p].parid.as_str(), false);
                    let next = first_rank_above_of(sibs.as_slice(), all[p].same_deep_order);
                    Some((all[p].parid.clone(), midpoint_or_append(all[p].same_deep_order, next)))
                },
            }
        },
    }
}

// ---- drag and drop ----

/// Where a dragged row goes.
#[derive(Debug, PartialEq, Eq)]
pub struct ReorderTarget {
    pub parid: String,
    pub rule: OrderRule,
    /// The row's rank so far, where it stays with its parent.
    pub from_order: Option<i32>,
}

/// What a `ReorderTarget` holds.
#[verifier::ext_equal]
pub struct ReorderView {
    pub parid: Seq<char>,
    pub rule: OrderRule,
    pub from_order: Option<i32>,
}

impl View for ReorderTarget {
    type V = ReorderView;

    open spec fn view(&self) -> ReorderView {
        ReorderView { parid: self.parid@, rule: self.rule, from_order: self.from_order }
    }
}

/// The order number of a row put at place `k` among rows.
pub open spec fn rule_at(rows: Seq<NavView>, k: int) -> OrderRule {
    if 0 < k < rows.len() {
        OrderRule::Between(rows[k - 1].same_deep_order as i32, rows[k].same_deep_order as i32)
    } else if k > 0 {
        OrderRule::OneAfter(rows[k - 1].same_deep_order as i32)
    } else if rows.len() > 0 {
        OrderRule::OneBefore(rows[0].same_deep_order as i32)
    } else {
        OrderRule::First
    }
}

/// Where a row goes that is dropped before or behind another: among that one's siblings.
pub open spec fn reorder_target(
    navs: Seq<NavView>,
    dragged: Seq<char>,
    target: Seq<char>,
    after: bool,
) -> Option<ReorderView> {
    match (nav_index(navs, dragged), nav_index(navs, target)) {
        (Some(d), Some(t)) => if dragged == target {
            None
        } else {
            let sibs = ranked(
                without_id(children_of(navs, navs[t].parid, true), dragged),
                false,
            );
            match nav_index(sibs, target) {
                None => None,
                Some(k) => Some(
                    ReorderView {
                        parid: navs[t].parid,
                        rule: rule_at(
                            sibs,
                            if after {
                                k + 1
                            } else {
                                k
                            },
                        ),
                        from_order: if navs[d].parid == navs[t].parid {
                            Some(navs[d].same_deep_order as i32)
                        } else {
                            None
                        },
                    },
                ),
            }
        },
        _ => None,
    }
}

/// Where a row goes that is dropped before or behind another.
pub fn compute_reorder_target(
    all: &[Nav],
    dragged_id: &str,
    target_id: &str,
    insert_after: bool,
) -> (r: Option<ReorderTarget>)
    ensures
        match r {
            Some(t) => reorder_target(nav_views(all@), dragged_id@, target_id@, insert_after)
                == Some(t@),
            None => reorder_target(
                nav_views(all@),
                dragged_id@,
                target_id@,
                insert_after,
            ) is None,
        },
{
    if str_eq(dragged_id, target_id) {
        return None;
    }
    let ghost vs = nav_views(all@);
    let d: usize = match find_nav(all, dragged_id) {
        None => {
            return None;
        },
        Some(d) => d,
    };
    let t: usize = match find_nav(all, target_id) {
        None => {
            return None;
        },
        Some(t) => t,
    };
    assert(vs[d as int] == all@[d as int]@);
    assert(vs[t as int] == all@[t as int]@);
    let kids = collect_children(all, all[t].parid.as_str(), true);
    let sibs = rank_rows(remove_id(kids, dragged_id), false);
    let ghost ss = nav_views(sibs@);
    let n: usize = sibs.len();
    match find_nav(sibs.as_slice(), target_id) {
        None => None,
        Some(k) => {
            assert forall|j: int| 0 <= j < n implies #[trigger] ss[j] == sibs@[j]@ by {}
            let at: usize = if insert_after {
                k + 1
            } else {
                k
            };
            let rule = if 0 < at && at < n {
                OrderRule::Between(sibs[at - 1].same_deep_order, sibs[at].same_deep_order)
            } else if at > 0 {
                OrderRule::OneAfter(sibs[at - 1].same_deep_order)
            } else {
                OrderRule::OneBefore(sibs[0].same_deep_order)
            };
            let same_parent: bool = str_eq(all[d].parid.as_str(), all[t].parid.as_str());
            let r = ReorderTarget {
                parid: all[t].parid.clone(),
                rule,
                from_order: if same_parent {
                    Some(all[d].same_deep_order)
                } else {
                    None
                },
            };
            Some(r)
        },
    }
}

/// The place of a dragged row once its order number is made: none where the row keeps
/// its parent and, as `unchanged` tells, its number.
pub fn settle_reorder(target: ReorderTarget, order: i32, unchanged: bool) -> (r: Option<(String, i32)>)
    ensures
        match r {
            Some((parid, o)) => !(target.from_order is Some && unchanged) && parid@ == target.parid@
                && o == order,
            None => target.from_order is Some && unchanged,
        },
{
    if target.from_order.is_some() && unchanged {
        return None;
    }
    Some((target.parid, order))
}

// ---- laws ----

/// Dropping a row, where that is allowed, on a row that does not hang below it keeps
/// trees trees. It is allowed where the search for ancestors does not find the dragged
/// row above the other.
pub proof fn law_drop_keeps_forest(
    navs: Seq<NavView>,
    dragged: Seq<char>,
    target: Seq<char>,
    after: bool,
    order: int,
)
    requires
        is_shallow_forest(navs),
        !is_ancestor(navs, dragged, target),
        reorder_target(navs, dragged, target, after) is Some,
    ensures
        is_forest(
            with_place(
                navs,
                dragged,
                reorder_target(navs, dragged, target, after)->0.parid,
                order,
            ),
        ),
{
    let t = nav_index(navs, target)->0;
    lemma_nav_index(navs, target);
    let up = navs[t].parid;
    law_ancestor_search_is_complete(navs, dragged, target);
    assert(!hangs_below(navs, dragged, up)) by {
        if up == dragged {
            assert(reaches(navs, dragged, target, 1));
        } else if hangs_below(navs, dragged, up) {
            let steps = choose|steps: nat| #[trigger] reaches(navs, dragged, up, steps);
            lemma_nav_index(navs, up);
            assert(reaches(navs, dragged, target, steps + 1));
        }
    }
    law_move_keeps_forest(navs, dragged, up, order);
}

/// Moving a row one level down keeps trees trees.
pub proof fn law_indent_keeps_forest(navs: Seq<NavView>, id: Seq<char>, order: int)
    requires
        is_forest(navs),
        indent_target(navs, id) is Some,
    ensures
        is_forest(with_place(navs, id, (indent_target(navs, id)->0).0, order)),
{
    let level = choose|level: spec_fn(Seq<char>) -> nat| levels_fall(navs, level);
    let m = nav_index(navs, id)->0;
    lemma_nav_index(navs, id);
    let up = navs[m].parid;
    let kids = children_of(navs, up, false);
    let sibs = ranked(kids, true);
    let k = nav_index(sibs, id)->0;
    lemma_nav_index(sibs, id);
    let prev = sibs[k - 1];
    assert(sibs.contains(prev));
    lemma_ranked_contains(kids, true, prev);
    lemma_children_of(navs, up, false);
    let j = choose|j: int| 0 <= j < kids.len() && kids[j] == prev;
    assert(navs.contains(kids[j]));
    let i = choose|i: int| 0 <= i < navs.len() && navs[i] == prev;
    assert(prev.parid == up);
    assert(prev.id != id);
    assert(!hangs_below(navs, id, prev.id)) by {
        if hangs_below(navs, id, prev.id) {
            let steps = choose|steps: nat| #[trigger] reaches(navs, id, prev.id, steps);
            lemma_nav_index(navs, prev.id);
            let i2 = nav_index(navs, prev.id)->0;
            assert(i2 == i) by {
                if i2 < i {
                    assert(navs[i2].id != navs[i].id);
                }
            }
            assert(level(navs[m].id) < level(up));
            if up != id {
                lemma_reaches_raises(navs, level, id, up, (steps - 1) as nat);
            }
        }
    }
    law_move_keeps_forest(navs, id, prev.id, order);
}

/// Moving a row one level up keeps trees trees.
pub proof fn law_outdent_keeps_forest(navs: Seq<NavView>, id: Seq<char>, order: int)
    requires
        is_forest(navs),
        outdent_target(navs, id) is Some,
    ensures
        is_forest(with_place(navs, id, (outdent_target(navs, id)->0).0, order)),
{
    let level = choose|level: spec_fn(Seq<char>) -> nat| levels_fall(navs, level);
    let m = nav_index(navs, id)->0;
    lemma_nav_index(navs, id);
    let p = nav_index(navs, navs[m].parid)->0;
    lemma_nav_index(navs, navs[m].parid);
    let up = navs[p].parid;
    assert(level(navs[m].id) < level(navs[m].parid));
    assert(level(navs[p].id) < level(up));
    assert(!hangs_below(navs, id, up)) by {
        if up != id && hangs_below(navs, id, up) {
            let steps = choose|steps: nat| #[trigger] reaches(navs, id, up, steps);
            lemma_reaches_raises(navs, level, id, up, steps);
        }
    }
    law_move_keeps_forest(navs, id, up, order);
}

} // verus!
