//! What the texts of an outline's rows have no say in.

use vstd::prelude::*;

verus! {

use crate::editor::rows::with_content;
use crate::editor::siblings::{children_of, may_follow, put_in, ranked};
use crate::editor::tree::{
    lemma_walked, outline_ends, root_id, rows_below, subtree_ends, subtree_ids, top_rows,
    visible_ids, walk, walk_ends, walked,
};
use crate::models::NavView;

/// A row without its text.
pub open spec fn bare(n: NavView) -> NavView {
    NavView { content: Seq::empty(), ..n }
}

/// Rows without their texts.
pub open spec fn bare_rows(navs: Seq<NavView>) -> Seq<NavView> {
    Seq::new(navs.len(), |i: int| bare(navs[i]))
}

proof fn lemma_bare_push(navs: Seq<NavView>, n: NavView)
    ensures
        bare_rows(navs.push(n)) == bare_rows(navs).push(bare(n)),
{
    assert(bare_rows(navs.push(n)) =~= bare_rows(navs).push(bare(n)));
}

proof fn lemma_bare_drop_last(navs: Seq<NavView>)
    requires
        navs.len() > 0,
    ensures
        bare_rows(navs).drop_last() == bare_rows(navs.drop_last()),
        bare_rows(navs).last() == bare(navs.last()),
{
    assert(bare_rows(navs).drop_last() =~= bare_rows(navs.drop_last()));
}

proof fn lemma_bare_children(navs: Seq<NavView>, parid: Seq<char>, with_deleted: bool)
    ensures
        bare_rows(children_of(navs, parid, with_deleted)) == children_of(
            bare_rows(navs),
            parid,
            with_deleted,
        ),
    decreases navs.len(),
{
    if navs.len() == 0 {
        assert(bare_rows(navs) =~= navs);
    } else {
        lemma_bare_drop_last(navs);
        lemma_bare_children(navs.drop_last(), parid, with_deleted);
        lemma_bare_push(children_of(navs.drop_last(), parid, with_deleted), navs.last());
    }
}

proof fn lemma_bare_put_in(rows: Seq<NavView>, n: NavView, by_id: bool)
    ensures
        bare_rows(put_in(rows, n, by_id)) == put_in(bare_rows(rows), bare(n), by_id),
    decreases rows.len(),
{
    lemma_bare_push(rows, n);
    if rows.len() > 0 {
        lemma_bare_drop_last(rows);
        assert(may_follow(rows.last(), n, by_id) == may_follow(bare(rows.last()), bare(n), by_id));
        if !may_follow(rows.last(), n, by_id) {
            lemma_bare_put_in(rows.drop_last(), n, by_id);
            lemma_bare_push(put_in(rows.drop_last(), n, by_id), rows.last());
        }
    }
}

proof fn lemma_bare_ranked(rows: Seq<NavView>, by_id: bool)
    ensures
        bare_rows(ranked(rows, by_id)) == ranked(bare_rows(rows), by_id),
    decreases rows.len(),
{
    if rows.len() == 0 {
        assert(bare_rows(rows) =~= rows);
    } else {
        lemma_bare_drop_last(rows);
        lemma_bare_ranked(rows.drop_last(), by_id);
        lemma_bare_put_in(ranked(rows.drop_last(), by_id), rows.last(), by_id);
    }
}

proof fn lemma_bare_below(navs: Seq<NavView>, n: NavView, whole: bool)
    ensures
        bare_rows(rows_below(navs, n, whole)) == rows_below(bare_rows(navs), bare(n), whole),
        rows_below(navs, n, whole).len() == rows_below(bare_rows(navs), bare(n), whole).len(),
{
    lemma_bare_children(navs, n.id, true);
    lemma_bare_children(navs, n.id, false);
    lemma_bare_ranked(children_of(navs, n.id, false), false);
    assert(bare_rows(Seq::<NavView>::empty()) =~= Seq::<NavView>::empty());
}

proof fn lemma_bare_walk(navs: Seq<NavView>, rows: Seq<NavView>, depth: nat, whole: bool)
    ensures
        walk(bare_rows(navs), bare_rows(rows), depth, whole) == walk(navs, rows, depth, whole),
    decreases depth, rows.len(),
{
    if rows.len() > 0 {
        lemma_bare_drop_last(rows);
        lemma_bare_walk(navs, rows.drop_last(), depth, whole);
        let n = rows.last();
        lemma_bare_below(navs, n, whole);
        if depth > 0 {
            lemma_bare_walk(navs, rows_below(navs, n, whole), (depth - 1) as nat, whole);
        }
    }
}

proof fn lemma_bare_root(navs: Seq<NavView>)
    ensures
        root_id(bare_rows(navs)) == root_id(navs),
    decreases navs.len(),
{
    if navs.len() > 0 {
        lemma_bare_drop_last(navs);
        lemma_bare_root(navs.drop_last());
    }
}

proof fn lemma_bare_top(navs: Seq<NavView>)
    ensures
        bare_rows(top_rows(navs)) == top_rows(bare_rows(navs)),
{
    lemma_bare_root(navs);
    if let Some(id) = root_id(navs) {
        lemma_bare_children(navs, id, false);
        lemma_bare_ranked(children_of(navs, id, false), false);
    } else {
        assert(bare_rows(top_rows(navs)) =~= top_rows(bare_rows(navs)));
    }
}

/// Two walks that find the same within every depth end together and find the same.
proof fn lemma_same_walks(
    a: Seq<NavView>,
    ra: Seq<NavView>,
    b: Seq<NavView>,
    rb: Seq<NavView>,
    whole: bool,
)
    requires
        forall|d: nat| #[trigger] walk(a, ra, d, whole) == walk(b, rb, d, whole),
    ensures
        walk_ends(a, ra, whole) == walk_ends(b, rb, whole),
        walk_ends(a, ra, whole) ==> walked(a, ra, whole) == walked(b, rb, whole),
{
    if walk_ends(a, ra, whole) {
        let d = choose|d: nat| #[trigger] walk(a, ra, d, whole) is Some;
        lemma_walked(a, ra, d, whole);
        lemma_walked(b, rb, d, whole);
    }
    if walk_ends(b, rb, whole) {
        let d = choose|d: nat| #[trigger] walk(b, rb, d, whole) is Some;
        assert(walk(a, ra, d, whole) == walk(b, rb, d, whole));
    }
}

/// Which rows are shown, in which order, and what hangs below a row does not depend on
/// the texts of the rows.
pub proof fn law_texts_do_not_shape_the_outline(
    a: Seq<NavView>,
    b: Seq<NavView>,
    id: Seq<char>,
)
    requires
        bare_rows(a) == bare_rows(b),
    ensures
        outline_ends(a) == outline_ends(b),
        outline_ends(a) ==> visible_ids(a) == visible_ids(b),
        subtree_ends(a, id) == subtree_ends(b, id),
        subtree_ends(a, id) ==> subtree_ids(a, id) == subtree_ids(b, id),
{
    lemma_bare_top(a);
    lemma_bare_top(b);
    assert forall|d: nat|
        #[trigger] walk(a, top_rows(a), d, false) == walk(b, top_rows(b), d, false) by {
        lemma_bare_walk(a, top_rows(a), d, false);
        lemma_bare_walk(b, top_rows(b), d, false);
    }
    lemma_same_walks(a, top_rows(a), b, top_rows(b), false);
    let ca = children_of(a, id, true);
    let cb = children_of(b, id, true);
    lemma_bare_children(a, id, true);
    lemma_bare_children(b, id, true);
    assert forall|d: nat| #[trigger] walk(a, ca, d, true) == walk(b, cb, d, true) by {
        lemma_bare_walk(a, ca, d, true);
        lemma_bare_walk(b, cb, d, true);
    }
    lemma_same_walks(a, ca, b, cb, true);
}

/// Putting a text in a row changes nothing but texts.
pub proof fn lemma_content_is_no_shape(navs: Seq<NavView>, id: Seq<char>, content: Seq<char>)
    ensures
        bare_rows(with_content(navs, id, content)) == bare_rows(navs),
{
    crate::models::lemma_nav_index(navs, id);
    assert(bare_rows(with_content(navs, id, content)) =~= bare_rows(navs));
}

} // verus!
