//! When an outline is a forest, and what keeps it one.

use vstd::prelude::*;

verus! {

use crate::editor::rows::with_place;
use crate::editor::siblings::{
    children_of, lemma_children_of, lemma_ranked_contains, ranked_children,
};
use crate::editor::tree::{
    is_ancestor, outline_ends, reaches, root_id, rows_below, subtree_ends, top_rows, visible_ids,
    walk, MAX_ANCESTOR_STEPS,
};
use crate::models::{lemma_nav_index, nav_index, NavView};
use crate::text::is_blank;

/// Whether every row has a lower level than its parent. Such an outline has no circles.
pub open spec fn levels_fall(navs: Seq<NavView>, level: spec_fn(Seq<char>) -> nat) -> bool {
    forall|i: int|
        0 <= i < navs.len() ==> level((#[trigger] navs[i]).id) < level(navs[i].parid)
}

proof fn lemma_falling_levels_end(
    navs: Seq<NavView>,
    rows: Seq<NavView>,
    level: spec_fn(Seq<char>) -> nat,
    depth: nat,
    whole: bool,
)
    requires
        levels_fall(navs, level),
        forall|i: int| 0 <= i < rows.len() ==> level((#[trigger] rows[i]).id) <= depth,
    ensures
        walk(navs, rows, depth, whole) is Some,
    decreases depth, rows.len(),
{
    if rows.len() > 0 {
        let p = rows.drop_last();
        assert forall|i: int| 0 <= i < p.len() implies level((#[trigger] p[i]).id) <= depth by {
            assert(p[i] == rows[i]);
        }
        lemma_falling_levels_end(navs, p, level, depth, whole);
        let n = rows.last();
        assert(rows[rows.len() - 1] == n);
        let below = rows_below(navs, n, whole);
        if below.len() > 0 {
            lemma_below_levels(navs, n, level, whole);
            assert(level(below[0].id) < level(n.id));
            lemma_falling_levels_end(navs, below, level, (depth - 1) as nat, whole);
        }
    }
}

proof fn lemma_below_levels(
    navs: Seq<NavView>,
    n: NavView,
    level: spec_fn(Seq<char>) -> nat,
    whole: bool,
)
    requires
        levels_fall(navs, level),
    ensures
        forall|i: int|
            0 <= i < rows_below(navs, n, whole).len() ==> level(
                (#[trigger] rows_below(navs, n, whole)[i]).id,
            ) < level(n.id),
{
    let below = rows_below(navs, n, whole);
    assert forall|i: int| 0 <= i < below.len() implies level((#[trigger] below[i]).id) < level(
        n.id,
    ) by {
        assert(below.contains(below[i]));
        lemma_child_of(navs, n.id, whole, below[i]);
        let k = choose|k: int| 0 <= k < navs.len() && navs[k] == below[i];
        assert(navs[k].parid == n.id);
    }
}

/// A row among the children of an id, ranked or not, is a row with that parent.
pub proof fn lemma_child_of(navs: Seq<NavView>, parid: Seq<char>, with_deleted: bool, n: NavView)
    requires
        children_of(navs, parid, with_deleted).contains(n) || ranked_children(
            navs,
            parid,
            with_deleted,
        ).contains(n),
    ensures
        navs.contains(n),
        n.parid == parid,
        with_deleted || !n.is_delete,
{
    let kids = children_of(navs, parid, with_deleted);
    lemma_children_of(navs, parid, with_deleted);
    lemma_ranked_contains(kids, false, n);
    let j = choose|j: int| 0 <= j < kids.len() && kids[j] == n;
    assert(navs.contains(kids[j]));
}

/// An outline in which every row lies on a lower level than its parent is finite, and
/// so is all that hangs below any row.
pub proof fn law_falling_levels_end(
    navs: Seq<NavView>,
    level: spec_fn(Seq<char>) -> nat,
    id: Seq<char>,
)
    requires
        levels_fall(navs, level),
    ensures
        outline_ends(navs),
        subtree_ends(navs, id),
{
    match root_id(navs) {
        Some(root) => {
            let top = top_rows(navs);
            assert forall|i: int| 0 <= i < top.len() implies level((#[trigger] top[i]).id) <= level(
                root,
            ) by {
                assert(top.contains(top[i]));
                lemma_child_of(navs, root, false, top[i]);
                let k = choose|k: int| 0 <= k < navs.len() && navs[k] == top[i];
                assert(navs[k].parid == root);
            }
            lemma_falling_levels_end(navs, top, level, level(root), false);
        },
        None => {
            assert(walk(navs, top_rows(navs), 0, false) is Some);
        },
    }
    let kids = children_of(navs, id, true);
    assert forall|i: int| 0 <= i < kids.len() implies level((#[trigger] kids[i]).id) <= level(
        id,
    ) by {
        assert(kids.contains(kids[i]));
        lemma_child_of(navs, id, true, kids[i]);
        let k = choose|k: int| 0 <= k < navs.len() && navs[k] == kids[i];
        assert(navs[k].parid == id);
    }
    lemma_falling_levels_end(navs, kids, level, level(id), true);
}

/// Whether no two rows have the same id, and none a blank one.
pub open spec fn ids_ok(navs: Seq<NavView>) -> bool {
    &&& forall|i: int, j: int| 0 <= i < j < navs.len() ==> navs[i].id != navs[j].id
    &&& forall|i: int| 0 <= i < navs.len() ==> !is_blank(#[trigger] navs[i].id)
}

/// Whether the rows form trees: every row has an id of its own, and going up from a row
/// leads in no circle.
pub open spec fn is_forest(navs: Seq<NavView>) -> bool {
    &&& ids_ok(navs)
    &&& exists|level: spec_fn(Seq<char>) -> nat| levels_fall(navs, level)
}

/// Whether rows form trees of at most as many levels as ancestors are looked for.
pub open spec fn is_shallow_forest(navs: Seq<NavView>) -> bool {
    &&& ids_ok(navs)
    &&& exists|level: spec_fn(Seq<char>) -> nat| #[trigger]
        levels_fall(navs, level) && levels_within(navs, level, MAX_ANCESTOR_STEPS as nat)
}

/// Whether the levels of all parents are at most `max`.
pub open spec fn levels_within(
    navs: Seq<NavView>,
    level: spec_fn(Seq<char>) -> nat,
    max: nat,
) -> bool {
    forall|i: int| 0 <= i < navs.len() ==> level((#[trigger] navs[i]).parid) <= max
}

/// In trees, the shown outline and all that hangs below a row are finite.
pub proof fn law_forest_ends(navs: Seq<NavView>, id: Seq<char>)
    requires
        is_forest(navs),
    ensures
        outline_ends(navs),
        subtree_ends(navs, id),
{
    let level = choose|level: spec_fn(Seq<char>) -> nat| levels_fall(navs, level);
    law_falling_levels_end(navs, level, id);
}

/// Whether a row is another one or hangs below it, however far.
pub open spec fn hangs_below(navs: Seq<NavView>, top: Seq<char>, id: Seq<char>) -> bool {
    id == top || exists|steps: nat| #[trigger] reaches(navs, top, id, steps)
}

proof fn lemma_reaches_more(
    navs: Seq<NavView>,
    top: Seq<char>,
    id: Seq<char>,
    a: nat,
    b: nat,
)
    requires
        a <= b,
        reaches(navs, top, id, a),
    ensures
        reaches(navs, top, id, b),
    decreases a,
{
    let i = nav_index(navs, id)->0;
    if navs[i].parid != top {
        lemma_reaches_more(navs, top, navs[i].parid, (a - 1) as nat, (b - 1) as nat);
    }
}

proof fn lemma_reaches_soon(
    navs: Seq<NavView>,
    level: spec_fn(Seq<char>) -> nat,
    max: nat,
    top: Seq<char>,
    id: Seq<char>,
    steps: nat,
)
    requires
        levels_fall(navs, level),
        levels_within(navs, level, max),
        reaches(navs, top, id, steps),
    ensures
        level(id) < max,
        reaches(navs, top, id, (max - level(id)) as nat),
    decreases steps,
{
    let i = nav_index(navs, id)->0;
    lemma_nav_index(navs, id);
    let up = navs[i].parid;
    assert(level(navs[i].id) < level(up) <= max);
    if up != top {
        lemma_reaches_soon(navs, level, max, top, up, (steps - 1) as nat);
        lemma_reaches_more(
            navs,
            top,
            up,
            (max - level(up)) as nat,
            (max - level(id) - 1) as nat,
        );
    }
}

/// Going up leads to higher levels.
pub proof fn lemma_reaches_raises(
    navs: Seq<NavView>,
    level: spec_fn(Seq<char>) -> nat,
    top: Seq<char>,
    id: Seq<char>,
    steps: nat,
)
    requires
        levels_fall(navs, level),
        reaches(navs, top, id, steps),
    ensures
        level(id) < level(top),
    decreases steps,
{
    let i = nav_index(navs, id)->0;
    lemma_nav_index(navs, id);
    assert(level(navs[i].id) < level(navs[i].parid));
    if navs[i].parid != top {
        lemma_reaches_raises(navs, level, top, navs[i].parid, (steps - 1) as nat);
    }
}

/// In trees of at most as many levels as ancestors are looked for, the search finds
/// every row that another hangs below.
pub proof fn law_ancestor_search_is_complete(navs: Seq<NavView>, top: Seq<char>, id: Seq<char>)
    requires
        is_shallow_forest(navs),
    ensures
        is_ancestor(navs, top, id) == hangs_below(navs, top, id),
{
    let max = MAX_ANCESTOR_STEPS as nat;
    let level = choose|level: spec_fn(Seq<char>) -> nat| #[trigger]
        levels_fall(navs, level) && levels_within(navs, level, max);
    if id != top && hangs_below(navs, top, id) {
        let steps = choose|steps: nat| #[trigger] reaches(navs, top, id, steps);
        lemma_reaches_soon(navs, level, max, top, id, steps);
        lemma_reaches_more(navs, top, id, (max - level(id)) as nat, max);
    }
}

/// A row that hangs below `top` has a parent that does, and one that does not has not.
pub proof fn lemma_hangs_below_parent(navs: Seq<NavView>, top: Seq<char>, i: int)
    requires
        ids_ok(navs),
        0 <= i < navs.len(),
        navs[i].id != top,
    ensures
        hangs_below(navs, top, navs[i].id) == hangs_below(navs, top, navs[i].parid),
{
    let id = navs[i].id;
    let up = navs[i].parid;
    lemma_nav_index(navs, id);
    let k = nav_index(navs, id)->0;
    assert(k == i) by {
        if k < i {
            assert(navs[k].id != navs[i].id);
        }
    }
    if hangs_below(navs, top, id) {
        let steps = choose|steps: nat| #[trigger] reaches(navs, top, id, steps);
        if up != top {
            assert(reaches(navs, top, up, (steps - 1) as nat));
        }
    }
    if hangs_below(navs, top, up) {
        if up == top {
            assert(reaches(navs, top, id, 1));
        } else {
            let steps = choose|steps: nat| #[trigger] reaches(navs, top, up, steps);
            lemma_nav_index(navs, up);
            assert(!is_blank(navs[nav_index(navs, up)->0].id));
            assert(reaches(navs, top, id, steps + 1));
        }
    }
}

/// Putting a row below one that does not hang below it keeps trees trees.
pub proof fn law_move_keeps_forest(
    navs: Seq<NavView>,
    id: Seq<char>,
    parid: Seq<char>,
    same_deep_order: int,
)
    requires
        is_forest(navs),
        !hangs_below(navs, id, parid),
    ensures
        is_forest(with_place(navs, id, parid, same_deep_order)),
{
    let level = choose|level: spec_fn(Seq<char>) -> nat| levels_fall(navs, level);
    let moved = with_place(navs, id, parid, same_deep_order);
    let raised = |x: Seq<char>|
        if hangs_below(navs, id, x) {
            level(x)
        } else {
            level(x) + level(id) + 1
        };
    lemma_nav_index(navs, id);
    assert forall|i: int| 0 <= i < moved.len() implies raised((#[trigger] moved[i]).id) < raised(
        moved[i].parid,
    ) by {
        assert(level(navs[i].id) < level(navs[i].parid));
        assert(moved[i].id == navs[i].id);
        if navs[i].id == id {
            let k = nav_index(navs, id)->0;
            if k < i {
                assert(navs[k].id != navs[i].id);
            }
            assert(moved[i].parid == parid);
        } else {
            lemma_hangs_below_parent(navs, id, i);
            assert(moved[i] == navs[i]);
        }
    }
    assert(levels_fall(moved, raised));
    assert forall|i: int, j: int| 0 <= i < j < moved.len() implies moved[i].id != moved[j].id by {
        assert(moved[i].id == navs[i].id && moved[j].id == navs[j].id);
    }
    assert forall|i: int| 0 <= i < moved.len() implies !is_blank(#[trigger] moved[i].id) by {
        assert(moved[i].id == navs[i].id);
    }
}

/// Changes that leave ids and parents alone keep trees trees.
pub proof fn law_same_shape_keeps_forest(a: Seq<NavView>, b: Seq<NavView>)
    requires
        is_forest(a),
        a.len() == b.len(),
        forall|i: int|
            0 <= i < a.len() ==> (#[trigger] b[i]).id == a[i].id && b[i].parid == a[i].parid,
    ensures
        is_forest(b),
{
    let level = choose|level: spec_fn(Seq<char>) -> nat| levels_fall(a, level);
    assert forall|i: int| 0 <= i < b.len() implies level((#[trigger] b[i]).id) < level(
        b[i].parid,
    ) by {
        assert(level(a[i].id) < level(a[i].parid));
    }
    assert(levels_fall(b, level));
    assert forall|i: int, j: int| 0 <= i < j < b.len() implies b[i].id != b[j].id by {
        assert(b[i].id == a[i].id && b[j].id == a[j].id);
    }
    assert forall|i: int| 0 <= i < b.len() implies !is_blank(#[trigger] b[i].id) by {
        assert(!is_blank(a[i].id));
        assert(b[i].id == a[i].id);
    }
}

/// One more row, with an id that no row and no parent has, keeps trees trees.
pub proof fn law_new_row_keeps_forest(navs: Seq<NavView>, n: NavView)
    requires
        is_forest(navs),
        !is_blank(n.id),
        n.parid != n.id,
        forall|i: int| 0 <= i < navs.len() ==> (#[trigger] navs[i]).id != n.id && navs[i].parid
            != n.id,
    ensures
        is_forest(navs.push(n)),
{
    let level = choose|level: spec_fn(Seq<char>) -> nat| levels_fall(navs, level);
    let raised = |x: Seq<char>|
        if x == n.id {
            0
        } else {
            level(x) + 1
        };
    let more = navs.push(n);
    assert forall|i: int| 0 <= i < more.len() implies raised((#[trigger] more[i]).id) < raised(
        more[i].parid,
    ) by {
        if i < navs.len() {
            assert(more[i] == navs[i]);
            assert(level(navs[i].id) < level(navs[i].parid));
        }
    }
    assert(levels_fall(more, raised));
}

/// Whether `id` is the id of a live row whose parent is `root` or among `above`.
pub open spec fn shown_below(
    navs: Seq<NavView>,
    root: Seq<char>,
    above: Seq<Seq<char>>,
    id: Seq<char>,
) -> bool {
    exists|k: int|
        0 <= k < navs.len() && (#[trigger] navs[k]).id == id && !navs[k].is_delete && (navs[k].parid
            == root || above.contains(navs[k].parid))
}

proof fn lemma_shown_below_more(
    navs: Seq<NavView>,
    root: Seq<char>,
    above: Seq<Seq<char>>,
    more: Seq<Seq<char>>,
    id: Seq<char>,
)
    requires
        shown_below(navs, root, above, id),
        forall|x: Seq<char>| above.contains(x) ==> more.contains(x),
    ensures
        shown_below(navs, root, more, id),
{
}

proof fn lemma_walk_shown(
    navs: Seq<NavView>,
    root: Seq<char>,
    above: Seq<Seq<char>>,
    rows: Seq<NavView>,
    depth: nat,
)
    requires
        walk(navs, rows, depth, false) is Some,
        forall|i: int| 0 <= i < rows.len() ==> shown_below(navs, root, above, (#[trigger] rows[i]).id),
    ensures
        ({
            let ids = walk(navs, rows, depth, false)->0;
            forall|i: int|
                0 <= i < ids.len() ==> shown_below(
                    navs,
                    root,
                    above + ids.take(i),
                    #[trigger] ids[i],
                )
        }),
    decreases depth, rows.len(),
{
    if rows.len() > 0 {
        let p = rows.drop_last();
        let n = rows.last();
        assert(rows[rows.len() - 1] == n);
        assert forall|i: int| 0 <= i < p.len() implies shown_below(
            navs,
            root,
            above,
            (#[trigger] p[i]).id,
        ) by {
            assert(p[i] == rows[i]);
        }
        lemma_walk_shown(navs, root, above, p, depth);
        let before = walk(navs, p, depth, false)->0;
        let below = rows_below(navs, n, false);
        let ids = walk(navs, rows, depth, false)->0;
        let above2 = above + before.push(n.id);
        if below.len() > 0 {
            assert forall|i: int| 0 <= i < below.len() implies shown_below(
                navs,
                root,
                above2,
                (#[trigger] below[i]).id,
            ) by {
                assert(below.contains(below[i]));
                lemma_child_of(navs, n.id, false, below[i]);
                let k = choose|k: int| 0 <= k < navs.len() && navs[k] == below[i];
                assert(above2[above2.len() - 1] == n.id);
                assert(above2.contains(navs[k].parid));
            }
            lemma_walk_shown(navs, root, above2, below, (depth - 1) as nat);
        }
        let sub = if below.len() > 0 {
            walk(navs, below, (depth - 1) as nat, false)->0
        } else {
            Seq::<Seq<char>>::empty()
        };
        assert(ids =~= before.push(n.id) + sub);
        assert forall|i: int| 0 <= i < ids.len() implies shown_below(
            navs,
            root,
            above + ids.take(i),
            #[trigger] ids[i],
        ) by {
            let m = before.len() as int;
            if i < m {
                assert(ids.take(i) =~= before.take(i));
                assert(ids[i] == before[i]);
            } else if i == m {
                assert(ids[i] == n.id);
                assert forall|x: Seq<char>| above.contains(x) implies (above + ids.take(
                    i,
                )).contains(x) by {
                    let k = choose|k: int| 0 <= k < above.len() && above[k] == x;
                    assert((above + ids.take(i))[k] == x);
                }
                lemma_shown_below_more(navs, root, above, above + ids.take(i), n.id);
            } else {
                let j = i - m - 1;
                assert(ids[i] == sub[j]);
                assert(above2 + sub.take(j) =~= above + ids.take(i));
            }
        }
    }
}

/// Every shown id is that of a live row whose parent is the root of the outline or is
/// shown above it.
pub proof fn law_visible_rows_are_live_and_below_their_parents(navs: Seq<NavView>)
    requires
        outline_ends(navs),
    ensures
        forall|i: int|
            0 <= i < visible_ids(navs).len() ==> root_id(navs) is Some && shown_below(
                navs,
                root_id(navs)->0,
                visible_ids(navs).take(i),
                #[trigger] visible_ids(navs)[i],
            ),
{
    let top = top_rows(navs);
    let depth = choose|depth: nat| #[trigger] walk(navs, top, depth, false) is Some;
    let ids = visible_ids(navs);
    match root_id(navs) {
        Some(root) => {
            assert forall|i: int| 0 <= i < top.len() implies shown_below(
                navs,
                root,
                Seq::empty(),
                (#[trigger] top[i]).id,
            ) by {
                assert(top.contains(top[i]));
                lemma_child_of(navs, root, false, top[i]);
                let k = choose|k: int| 0 <= k < navs.len() && navs[k] == top[i];
                assert(navs[k].parid == root);
            }
            lemma_walk_shown(navs, root, Seq::empty(), top, depth);
            assert forall|i: int| 0 <= i < ids.len() implies shown_below(
                navs,
                root,
                ids.take(i),
                #[trigger] ids[i],
            ) by {
                assert(Seq::<Seq<char>>::empty() + ids.take(i) =~= ids.take(i));
            }
        },
        None => {
            assert(ids.len() == 0);
        },
    }
}

} // verus!
