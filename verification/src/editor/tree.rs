//! The outline as a tree: its root, what is shown of it and in which order, and what
//! hangs below a row.

use crate::editor::siblings::{collect_children, sorted_children};
use crate::models::{find_nav, Nav, ROOT_CONTAINER_PARENT_ID};
use crate::text::{is_blank_str, str_eq};
use vstd::prelude::*;

verus! {

use crate::editor::siblings::{children_of, ranked_children};
use crate::models::{nav_index, nav_views, str_views, NavView};
use crate::text::is_blank;

// ---- the root ----

/// The id of the row that holds the outline together: the first whose parent id is
/// `ROOT_CONTAINER_PARENT_ID`.
pub open spec fn root_id(navs: Seq<NavView>) -> Option<Seq<char>>
    decreases navs.len(),
{
    if navs.len() == 0 {
        None
    } else {
        match root_id(navs.drop_last()) {
            Some(id) => Some(id),
            None => if navs.last().parid == ROOT_CONTAINER_PARENT_ID@ {
                Some(navs.last().id)
            } else {
                None
            },
        }
    }
}

/// The id of the row that holds the outline together.
pub fn root_container_id(all: &[Nav]) -> (r: Option<String>)
    ensures
        match r {
            Some(id) => root_id(nav_views(all@)) == Some(id@),
            None => root_id(nav_views(all@)) is None,
        },
{
    let mut i: usize = 0;
    let ghost vs = nav_views(all@);
    while i < all.len()
        invariant
            i <= all@.len(),
            vs == nav_views(all@),
            root_id(vs.take(i as int)) is None,
        decreases all@.len() - i,
    {
        proof {
            assert(vs.take(i + 1).drop_last() =~= vs.take(i as int));
            assert(vs.take(i + 1).last() == all@[i as int]@);
        }
        if str_eq(all[i].parid.as_str(), ROOT_CONTAINER_PARENT_ID) {
            proof {
                lemma_root_id_prefix(vs, i + 1);
            }
            return Some(all[i].id.clone());
        }
        i = i + 1;
    }
    assert(vs.take(i as int) =~= vs);
    None
}

proof fn lemma_root_id_prefix(navs: Seq<NavView>, k: int)
    requires
        0 <= k <= navs.len(),
        root_id(navs.take(k)) is Some,
    ensures
        root_id(navs) == root_id(navs.take(k)),
    decreases navs.len() - k,
{
    if k < navs.len() {
        assert(navs.take(k + 1).drop_last() =~= navs.take(k));
        lemma_root_id_prefix(navs, k + 1);
    } else {
        assert(navs.take(k) =~= navs);
    }
}

/// The rows at the top of the outline: the live children of its root, by rank. There
/// are none without a root.
pub open spec fn top_rows(navs: Seq<NavView>) -> Seq<NavView> {
    match root_id(navs) {
        Some(id) => ranked_children(navs, id, false),
        None => Seq::empty(),
    }
}

/// The rows at the top of the outline.
pub fn collect_visible_top_level_nodes(all: &[Nav]) -> (r: Vec<Nav>)
    ensures
        nav_views(r@) == top_rows(nav_views(all@)),
{
    match root_container_id(all) {
        Some(id) => sorted_children(all, id.as_str(), false),
        None => {
            let r: Vec<Nav> = Vec::new();
            assert(nav_views(r@) =~= Seq::<NavView>::empty());
            r
        },
    }
}

// ---- walking down ----

/// The rows that a walk finds directly below a row: of the shown outline, its live
/// children by rank where it is open; of the whole tree, all its children as they come.
pub open spec fn rows_below(navs: Seq<NavView>, n: NavView, whole: bool) -> Seq<NavView> {
    if whole {
        children_of(navs, n.id, true)
    } else if n.is_display {
        ranked_children(navs, n.id, false)
    } else {
        Seq::empty()
    }
}

/// The ids that a walk over `rows` and what is below them comes by, each row before
/// those below it. `None` if the walk goes more than `depth` levels below `rows`.
pub open spec fn walk(navs: Seq<NavView>, rows: Seq<NavView>, depth: nat, whole: bool) -> Option<
    Seq<Seq<char>>,
>
    decreases depth, rows.len(),
{
    if rows.len() == 0 {
        Some(Seq::empty())
    } else {
        match walk(navs, rows.drop_last(), depth, whole) {
            None => None,
            Some(before) => {
                let n = rows.last();
                let below = rows_below(navs, n, whole);
                if below.len() == 0 {
                    Some(before.push(n.id))
                } else if depth == 0 {
                    None
                } else {
                    match walk(navs, below, (depth - 1) as nat, whole) {
                        None => None,
                        Some(sub) => Some(before.push(n.id) + sub),
                    }
                }
            },
        }
    }
}

/// Whether a walk comes to an end.
pub open spec fn walk_ends(navs: Seq<NavView>, rows: Seq<NavView>, whole: bool) -> bool {
    exists|depth: nat| #[trigger] walk(navs, rows, depth, whole) is Some
}

/// What a walk that comes to an end comes by.
pub open spec fn walked(navs: Seq<NavView>, rows: Seq<NavView>, whole: bool) -> Seq<Seq<char>> {
    let depth = choose|depth: nat| #[trigger] walk(navs, rows, depth, whole) is Some;
    walk(navs, rows, depth, whole)->0
}

/// A walk that ends within a depth finds the same within a greater one.
pub proof fn lemma_walk_deeper(
    navs: Seq<NavView>,
    rows: Seq<NavView>,
    d: nat,
    e: nat,
    whole: bool,
)
    requires
        d <= e,
        walk(navs, rows, d, whole) is Some,
    ensures
        walk(navs, rows, e, whole) == walk(navs, rows, d, whole),
    decreases d, rows.len(),
{
    if rows.len() > 0 {
        lemma_walk_deeper(navs, rows.drop_last(), d, e, whole);
        let below = rows_below(navs, rows.last(), whole);
        if below.len() > 0 {
            lemma_walk_deeper(navs, below, (d - 1) as nat, (e - 1) as nat, whole);
        }
    }
}

/// What a walk comes by does not hang on the depth that it is given.
pub proof fn lemma_walked(navs: Seq<NavView>, rows: Seq<NavView>, d: nat, whole: bool)
    requires
        walk(navs, rows, d, whole) is Some,
    ensures
        walk_ends(navs, rows, whole),
        walk(navs, rows, d, whole) == Some(walked(navs, rows, whole)),
{
    let e = choose|e: nat| #[trigger] walk(navs, rows, e, whole) is Some;
    if d <= e {
        lemma_walk_deeper(navs, rows, d, e, whole);
    } else {
        lemma_walk_deeper(navs, rows, e, d, whole);
    }
}

proof fn lemma_walk_prefix(navs: Seq<NavView>, rows: Seq<NavView>, i: int, d: nat, whole: bool)
    requires
        0 <= i <= rows.len(),
        walk(navs, rows, d, whole) is Some,
    ensures
        walk(navs, rows.take(i), d, whole) is Some,
    decreases rows.len(),
{
    if i < rows.len() {
        lemma_walk_prefix(navs, rows.drop_last(), i, d, whole);
        assert(rows.drop_last().take(i) =~= rows.take(i));
    } else {
        assert(rows.take(i) =~= rows);
    }
}

/// Appends what a walk comes by.
fn walk_of(
    navs: &[Nav],
    rows: &[Nav],
    out: &mut Vec<String>,
    whole: bool,
    Ghost(depth): Ghost<nat>,
)
    requires
        walk(nav_views(navs@), nav_views(rows@), depth, whole) is Some,
    ensures
        str_views(final(out)@) == str_views(old(out)@) + walk(
            nav_views(navs@),
            nav_views(rows@),
            depth,
            whole,
        )->0,
    decreases depth,
{
    let ghost vs = nav_views(navs@);
    let ghost rs = nav_views(rows@);
    let ghost start = str_views(out@);
    let mut i: usize = 0;
    proof {
        assert(rs.take(0) =~= Seq::<NavView>::empty());
        assert(start + Seq::<Seq<char>>::empty() =~= start);
    }
    while i < rows.len()
        invariant
            i <= rows@.len(),
            vs == nav_views(navs@),
            rs == nav_views(rows@),
            walk(vs, rs, depth, whole) is Some,
            walk(vs, rs.take(i as int), depth, whole) is Some,
            str_views(out@) == start + walk(vs, rs.take(i as int), depth, whole)->0,
        decreases rows@.len() - i,
    {
        let ghost so_far = walk(vs, rs.take(i as int), depth, whole)->0;
        proof {
            lemma_walk_prefix(vs, rs, i + 1, depth, whole);
            assert(rs.take(i + 1).drop_last() =~= rs.take(i as int));
            assert(rs.take(i + 1).last() == rows@[i as int]@);
        }
        let ghost before = out@;
        out.push(rows[i].id.clone());
        assert(str_views(out@) =~= str_views(before).push(rows@[i as int]@.id));
        let below: Vec<Nav> = if whole {
            collect_children(navs, rows[i].id.as_str(), true)
        } else if rows[i].is_display {
            sorted_children(navs, rows[i].id.as_str(), false)
        } else {
            let none: Vec<Nav> = Vec::new();
            assert(nav_views(none@) =~= Seq::<NavView>::empty());
            none
        };
        assert(nav_views(below@) == rows_below(vs, rows@[i as int]@, whole));
        assert(nav_views(below@).len() == below@.len());
        if below.len() > 0 {
            walk_of(navs, below.as_slice(), out, whole, Ghost((depth - 1) as nat));
            assert(str_views(out@) =~= start + walk(vs, rs.take(i + 1), depth, whole)->0);
        } else {
            assert(str_views(out@) =~= start + walk(vs, rs.take(i + 1), depth, whole)->0);
        }
        i = i + 1;
    }
    assert(rs.take(i as int) =~= rs);
}

// ---- what is shown ----

/// Whether the shown outline is finite: following its rows downwards leads in no circle.
pub open spec fn outline_ends(navs: Seq<NavView>) -> bool {
    walk_ends(navs, top_rows(navs), false)
}

/// The ids of the shown rows from top to bottom.
pub open spec fn visible_ids(navs: Seq<NavView>) -> Seq<Seq<char>> {
    walked(navs, top_rows(navs), false)
}

/// The ids of the shown rows from top to bottom.
pub fn collect_visible_preorder_ids(all: &[Nav]) -> (r: Vec<String>)
    requires
        outline_ends(nav_views(all@)),
    ensures
        str_views(r@) == visible_ids(nav_views(all@)),
{
    let ghost vs = nav_views(all@);
    let ghost depth = choose|depth: nat| #[trigger] walk(vs, top_rows(vs), depth, false) is Some;
    let top = collect_visible_top_level_nodes(all);
    let mut out: Vec<String> = Vec::new();
    walk_of(all, top.as_slice(), &mut out, false, Ghost(depth));
    assert(str_views(out@) =~= visible_ids(vs));
    out
}

/// Whether the shown outline goes at most `depth` levels below its top rows.
pub fn outline_within(all: &[Nav], depth: usize) -> (r: bool)
    ensures
        r == (walk(nav_views(all@), top_rows(nav_views(all@)), depth as nat, false) is Some),
        r ==> outline_ends(nav_views(all@)),
{
    let top = collect_visible_top_level_nodes(all);
    rows_within(all, top.as_slice(), depth, false)
}

/// Whether a walk goes at most `depth` levels below its rows.
fn rows_within(navs: &[Nav], rows: &[Nav], depth: usize, whole: bool) -> (r: bool)
    ensures
        r == (walk(nav_views(navs@), nav_views(rows@), depth as nat, whole) is Some),
    decreases depth,
{
    let ghost vs = nav_views(navs@);
    let ghost rs = nav_views(rows@);
    let mut i: usize = 0;
    assert(rs.take(0) =~= Seq::<NavView>::empty());
    while i < rows.len()
        invariant
            i <= rows@.len(),
            vs == nav_views(navs@),
            rs == nav_views(rows@),
            walk(vs, rs.take(i as int), depth as nat, whole) is Some,
        decreases rows@.len() - i,
    {
        proof {
            assert(rs.take(i + 1).drop_last() =~= rs.take(i as int));
            assert(rs.take(i + 1).last() == rows@[i as int]@);
        }
        let below: Vec<Nav> = if whole {
            collect_children(navs, rows[i].id.as_str(), true)
        } else if rows[i].is_display {
            sorted_children(navs, rows[i].id.as_str(), false)
        } else {
            let none: Vec<Nav> = Vec::new();
            assert(nav_views(none@) =~= Seq::<NavView>::empty());
            none
        };
        assert(nav_views(below@) == rows_below(vs, rows@[i as int]@, whole));
        assert(nav_views(below@).len() == below@.len());
        if below.len() > 0 {
            let fits: bool = depth > 0 && rows_within(navs, below.as_slice(), depth - 1, whole);
            if !fits {
                proof {
                    if walk(vs, rs, depth as nat, whole) is Some {
                        lemma_walk_prefix(vs, rs, i + 1, depth as nat, whole);
                    }
                }
                return false;
            }
        }
        i = i + 1;
    }
    assert(rs.take(i as int) =~= rs);
    true
}

// ---- what hangs below a row ----

/// Whether all that hangs below a row, deleted or not, is finite.
pub open spec fn subtree_ends(navs: Seq<NavView>, id: Seq<char>) -> bool {
    walk_ends(navs, children_of(navs, id, true), true)
}

/// The ids of a row and of all that hangs below it.
pub open spec fn subtree_ids(navs: Seq<NavView>, id: Seq<char>) -> Seq<Seq<char>> {
    seq![id] + walked(navs, children_of(navs, id, true), true)
}

/// The ids of a row and of all that hangs below it.
pub fn collect_subtree(all: &[Nav], root: &str) -> (r: Vec<String>)
    requires
        subtree_ends(nav_views(all@), root@),
    ensures
        str_views(r@) == subtree_ids(nav_views(all@), root@),
{
    let ghost vs = nav_views(all@);
    let ghost depth = choose|depth: nat| #[trigger]
        walk(vs, children_of(vs, root@, true), depth, true) is Some;
    let mut out: Vec<String> = Vec::new();
    out.push(root.to_string());
    let kids = collect_children(all, root, true);
    assert(str_views(out@) =~= seq![root@]);
    walk_of(all, kids.as_slice(), &mut out, true, Ghost(depth));
    out
}

/// Whether what hangs below a row goes at most `depth` levels below its children.
pub fn subtree_within(all: &[Nav], root: &str, depth: usize) -> (r: bool)
    ensures
        r == (walk(
            nav_views(all@),
            children_of(nav_views(all@), root@, true),
            depth as nat,
            true,
        ) is Some),
        r ==> subtree_ends(nav_views(all@), root@),
{
    let kids = collect_children(all, root, true);
    rows_within(all, kids.as_slice(), depth, true)
}

// ---- a preview ----

/// Two spaces for each level.
pub open spec fn indent(depth: nat) -> Seq<char>
    decreases depth,
{
    if depth == 0 {
        Seq::empty()
    } else {
        indent((depth - 1) as nat) + "  "@
    }
}

/// The first `limit` lines of an outline below `rows`, each indented by its depth.
pub open spec fn preview(navs: Seq<NavView>, rows: Seq<NavView>, depth: nat, limit: nat) -> Seq<
    Seq<char>,
>
    decreases limit, rows.len(),
{
    if limit == 0 || rows.len() == 0 {
        Seq::empty()
    } else {
        let n = rows[0];
        let sub = if n.is_display {
            preview(navs, ranked_children(navs, n.id, false), depth + 1, (limit - 1) as nat)
        } else {
            Seq::empty()
        };
        let left: nat = if sub.len() < limit {
            (limit - 1 - sub.len()) as nat
        } else {
            0
        };
        seq![indent(depth) + n.content] + sub + preview(navs, rows.drop_first(), depth, left)
    }
}

/// The first lines of an outline.
pub open spec fn preview_lines(navs: Seq<NavView>, limit: nat) -> Seq<Seq<char>> {
    match root_id(navs) {
        Some(id) => preview(navs, ranked_children(navs, id, false), 0, limit),
        None => Seq::empty(),
    }
}

/// A preview has at most as many lines as asked for.
pub proof fn lemma_preview_len(navs: Seq<NavView>, rows: Seq<NavView>, depth: nat, limit: nat)
    ensures
        preview(navs, rows, depth, limit).len() <= limit,
    decreases limit, rows.len(),
{
    if limit > 0 && rows.len() > 0 {
        let n = rows[0];
        if n.is_display {
            lemma_preview_len(
                navs,
                ranked_children(navs, n.id, false),
                depth + 1,
                (limit - 1) as nat,
            );
        }
        let sub = if n.is_display {
            preview(navs, ranked_children(navs, n.id, false), depth + 1, (limit - 1) as nat)
        } else {
            Seq::<Seq<char>>::empty()
        };
        lemma_preview_len(navs, rows.drop_first(), depth, (limit - 1 - sub.len()) as nat);
    }
}

fn indented(depth: usize, content: &str) -> (r: String)
    ensures
        r@ == indent(depth as nat) + content@,
{
    let mut out = String::new();
    let mut i: usize = 0;
    while i < depth
        invariant
            i <= depth,
            out@ == indent(i as nat),
        decreases depth - i,
    {
        out.append("  ");
        i = i + 1;
    }
    out.append(content);
    out
}

fn preview_of(navs: &[Nav], rows: &[Nav], depth: usize, out: &mut Vec<String>, limit: usize)
    requires
        depth <= old(out)@.len() <= limit,
    ensures
        str_views(final(out)@) == str_views(old(out)@) + preview(
            nav_views(navs@),
            nav_views(rows@),
            depth as nat,
            (limit - old(out)@.len()) as nat,
        ),
        old(out)@.len() <= final(out)@.len() <= limit,
    decreases limit - old(out)@.len(),
{
    let ghost vs = nav_views(navs@);
    let ghost rs = nav_views(rows@);
    let ghost start = str_views(out@);
    let ghost whole = preview(vs, rs, depth as nat, (limit - out@.len()) as nat);
    let ghost start_len = out@.len();
    let mut i: usize = 0;
    proof {
        assert(rs.skip(0) =~= rs);
        lemma_preview_len(vs, rs, depth as nat, (limit - out@.len()) as nat);
    }
    while i < rows.len()
        invariant
            i <= rows@.len(),
            vs == nav_views(navs@),
            rs == nav_views(rows@),
            depth <= start_len <= out@.len() <= limit,
            start_len == old(out)@.len(),
            start == str_views(old(out)@),
            whole == preview(vs, rs, depth as nat, (limit - start_len) as nat),
            i > 0 ==> out@.len() > start_len,
            str_views(out@) + preview(
                vs,
                rs.skip(i as int),
                depth as nat,
                (limit - out@.len()) as nat,
            ) == start + whole,
        decreases rows@.len() - i,
    {
        if out.len() >= limit {
            assert(str_views(out@) + Seq::<Seq<char>>::empty() =~= str_views(out@));
            return;
        }
        let ghost n = rows@[i as int]@;
        let ghost o1 = out@;
        let ghost left = (limit - o1.len()) as nat;
        proof {
            assert(rs.skip(i as int)[0] == n);
            assert(rs.skip(i as int).drop_first() =~= rs.skip(i + 1));
        }
        out.push(indented(depth, rows[i].content.as_str()));
        let ghost line = indent(depth as nat) + n.content;
        assert(str_views(out@) =~= str_views(o1).push(line));
        let ghost sub = if n.is_display {
            preview(vs, ranked_children(vs, n.id, false), (depth + 1) as nat, (left - 1) as nat)
        } else {
            Seq::<Seq<char>>::empty()
        };
        if rows[i].is_display {
            let kids = sorted_children(navs, rows[i].id.as_str(), false);
            preview_of(navs, kids.as_slice(), depth + 1, out, limit);
        }
        proof {
            let rest = preview(
                vs,
                rs.skip(i + 1),
                depth as nat,
                (left - 1 - sub.len()) as nat,
            );
            assert(str_views(out@) =~= str_views(o1).push(line) + sub);
            assert(str_views(out@).len() == out@.len());
            assert(str_views(out@) + rest =~= str_views(o1) + (seq![line] + sub + rest));
        }
        i = i + 1;
    }
    proof {
        assert(rs.skip(i as int).len() == 0);
        assert(str_views(out@) + Seq::<Seq<char>>::empty() =~= str_views(out@));
    }
}

/// The first lines of an outline, indented.
pub fn collect_preview_lines(navs: &[Nav], limit: usize) -> (r: Vec<String>)
    ensures
        str_views(r@) == preview_lines(nav_views(navs@), limit as nat),
        r@.len() <= limit,
{
    let mut out: Vec<String> = Vec::new();
    assert(str_views(out@) =~= Seq::<Seq<char>>::empty());
    if let Some(root) = root_container_id(navs) {
        let top = sorted_children(navs, root.as_str(), false);
        preview_of(navs, top.as_slice(), 0, &mut out, limit);
        assert(str_views(out@) =~= preview_lines(nav_views(navs@), limit as nat));
    }
    out
}

// ---- which rows may go ----

/// Whether an empty row may be deleted: not if it is the only one at the top, and not
/// if it has a live child.
pub open spec fn may_delete(navs: Seq<NavView>, id: Seq<char>) -> bool {
    &&& !is_blank(id)
    &&& !(top_rows(navs).len() == 1 && top_rows(navs)[0].id == id)
    &&& children_of(navs, id, false).len() == 0
}

/// Whether an empty row may be deleted.
pub fn can_soft_delete_empty_nav(all: &[Nav], nav_id: &str) -> (r: bool)
    ensures
        r == may_delete(nav_views(all@), nav_id@),
{
    if is_blank_str(nav_id) {
        return false;
    }
    let top = collect_visible_top_level_nodes(all);
    assert(nav_views(top@).len() == top@.len());
    if top.len() == 1 {
        assert(nav_views(top@)[0] == top@[0]@);
        if str_eq(top[0].id.as_str(), nav_id) {
            return false;
        }
    }
    let kids = collect_children(all, nav_id, false);
    assert(nav_views(kids@).len() == kids@.len());
    kids.len() == 0
}

// ---- ancestors ----

/// Whether going up from a row, at most `steps` times, leads to a parent.
pub open spec fn reaches(navs: Seq<NavView>, ancestor: Seq<char>, id: Seq<char>, steps: nat) -> bool
    decreases steps,
{
    if steps == 0 {
        false
    } else {
        match nav_index(navs, id) {
            None => false,
            Some(i) => navs[i].parid == ancestor || (!is_blank(navs[i].parid) && reaches(
                navs,
                ancestor,
                navs[i].parid,
                (steps - 1) as nat,
            )),
        }
    }
}

/// How many levels up a row's ancestors are looked for.
pub const MAX_ANCESTOR_STEPS: u32 = 2048;

/// Whether a row is another one or among those above it.
pub open spec fn is_ancestor(navs: Seq<NavView>, ancestor: Seq<char>, id: Seq<char>) -> bool {
    ancestor == id || reaches(navs, ancestor, id, MAX_ANCESTOR_STEPS as nat)
}

/// Whether a row is another one or among those above it.
pub fn is_ancestor_of(all: &[Nav], ancestor_id: &str, node_id: &str) -> (r: bool)
    ensures
        r == is_ancestor(nav_views(all@), ancestor_id@, node_id@),
{
    if str_eq(ancestor_id, node_id) {
        return true;
    }
    let ghost vs = nav_views(all@);
    let mut cur: String = node_id.to_string();
    let mut steps: u32 = MAX_ANCESTOR_STEPS;
    while steps > 0
        invariant
            vs == nav_views(all@),
            ancestor_id@ != node_id@,
            reaches(vs, ancestor_id@, cur@, steps as nat) == is_ancestor(
                vs,
                ancestor_id@,
                node_id@,
            ),
        decreases steps,
    {
        match find_nav(all, cur.as_str()) {
            None => {
                return false;
            },
            Some(i) => {
                assert(vs[i as int] == all@[i as int]@);
                if str_eq(all[i].parid.as_str(), ancestor_id) {
                    return true;
                }
                if is_blank_str(all[i].parid.as_str()) {
                    return false;
                }
                cur = all[i].parid.clone();
            },
        }
        steps = steps - 1;
    }
    false
}

// ---- laws ----

/// The root of an outline is the first row whose parent is no row but the mark of the
/// root, and there is none exactly if no row has that mark.
pub proof fn law_root_is_the_first_row_with_its_mark(navs: Seq<NavView>)
    ensures
        match root_id(navs) {
            Some(id) => exists|i: int|
                0 <= i < navs.len() && (#[trigger] navs[i]).id == id && navs[i].parid
                    == ROOT_CONTAINER_PARENT_ID@ && forall|j: int|
                    0 <= j < i ==> (#[trigger] navs[j]).parid != ROOT_CONTAINER_PARENT_ID@,
            None => forall|j: int|
                0 <= j < navs.len() ==> (#[trigger] navs[j]).parid != ROOT_CONTAINER_PARENT_ID@,
        },
    decreases navs.len(),
{
    if navs.len() > 0 {
        let p = navs.drop_last();
        law_root_is_the_first_row_with_its_mark(p);
        let last = navs[navs.len() - 1];
        match root_id(p) {
            Some(id) => {
                let i = choose|i: int|
                    0 <= i < p.len() && (#[trigger] p[i]).id == id && p[i].parid
                        == ROOT_CONTAINER_PARENT_ID@ && forall|j: int|
                        0 <= j < i ==> (#[trigger] p[j]).parid != ROOT_CONTAINER_PARENT_ID@;
                assert(navs[i] == p[i]);
                assert forall|j: int| 0 <= j < i implies (#[trigger] navs[j]).parid
                    != ROOT_CONTAINER_PARENT_ID@ by {
                    assert(p[j] == navs[j]);
                }
            },
            None => {
                assert forall|j: int| 0 <= j < p.len() implies (#[trigger] navs[j]).parid
                    != ROOT_CONTAINER_PARENT_ID@ by {
                    assert(p[j] == navs[j]);
                }
                assert(last.parid == navs.last().parid);
            },
        }
    }
}

/// Each level of a preview is two spaces further in.
pub proof fn law_indent_is_two_spaces_a_level(depth: nat)
    ensures
        indent(depth).len() == 2 * depth,
        forall|i: int| 0 <= i < indent(depth).len() ==> #[trigger] indent(depth)[i] == ' ',
    decreases depth,
{
    if depth > 0 {
        reveal_strlit("  ");
        law_indent_is_two_spaces_a_level((depth - 1) as nat);
        let p = indent((depth - 1) as nat);
        assert forall|i: int| 0 <= i < indent(depth).len() implies #[trigger] indent(depth)[i]
            == ' ' by {
            if i < p.len() {
                assert(indent(depth)[i] == p[i]);
            } else {
                assert(indent(depth)[i] == "  "@[i - p.len()]);
            }
        }
    }
}

/// A shorter preview is the beginning of a longer one, and as long as it may be.
pub proof fn law_shorter_preview_is_a_beginning(
    navs: Seq<NavView>,
    rows: Seq<NavView>,
    depth: nat,
    limit: nat,
    more: nat,
)
    requires
        limit <= more,
    ensures
        ({
            let a = preview(navs, rows, depth, limit);
            let b = preview(navs, rows, depth, more);
            &&& a.is_prefix_of(b)
            &&& a.len() == limit || a == b
        }),
    decreases limit, rows.len(),
{
    lemma_preview_len(navs, rows, depth, limit);
    lemma_preview_len(navs, rows, depth, more);
    if limit > 0 && rows.len() > 0 {
        let n = rows[0];
        let kids = ranked_children(navs, n.id, false);
        let none = Seq::<Seq<char>>::empty();
        let sub_a = if n.is_display {
            preview(navs, kids, depth + 1, (limit - 1) as nat)
        } else {
            none
        };
        let sub_b = if n.is_display {
            preview(navs, kids, depth + 1, (more - 1) as nat)
        } else {
            none
        };
        if n.is_display {
            law_shorter_preview_is_a_beginning(
                navs,
                kids,
                depth + 1,
                (limit - 1) as nat,
                (more - 1) as nat,
            );
            lemma_preview_len(navs, kids, depth + 1, (limit - 1) as nat);
            lemma_preview_len(navs, kids, depth + 1, (more - 1) as nat);
        }
        let left_a = (limit - 1 - sub_a.len()) as nat;
        let left_b = (more - 1 - sub_b.len()) as nat;
        let rest_a = preview(navs, rows.drop_first(), depth, left_a);
        let rest_b = preview(navs, rows.drop_first(), depth, left_b);
        let head = seq![indent(depth) + n.content];
        let a = preview(navs, rows, depth, limit);
        let b = preview(navs, rows, depth, more);
        assert(a == head + sub_a + rest_a);
        assert(b == head + sub_b + rest_b);
        if sub_a == sub_b {
            law_shorter_preview_is_a_beginning(navs, rows.drop_first(), depth, left_a, left_b);
        } else {
            assert(left_a == 0);
            assert(rest_a.len() == 0);
        }
        assert(a.is_prefix_of(b)) by {
            assert forall|i: int| 0 <= i < a.len() implies a[i] == b[i] by {
                if 0 < i && i - 1 < sub_a.len() {
                    assert(sub_a[i - 1] == sub_b[i - 1]);
                } else if i - 1 >= sub_a.len() {
                    assert(rest_a[i - 1 - sub_a.len()] == rest_b[i - 1 - sub_a.len()]);
                }
            }
            assert(a =~= b.subrange(0, a.len() as int));
        }
    }
}

/// A preview shows a row's text, indented by its depth, then what is below it where it is
/// open, one level further in, and then the rows behind it.
pub proof fn law_preview_goes_down_before_it_goes_on(
    navs: Seq<NavView>,
    rows: Seq<NavView>,
    depth: nat,
    limit: nat,
)
    requires
        rows.len() > 0,
        limit > 0,
    ensures
        ({
            let all = preview(navs, rows, depth, limit);
            let below = preview(
                navs,
                ranked_children(navs, rows[0].id, false),
                depth + 1,
                (limit - 1) as nat,
            );
            &&& all.len() <= limit
            &&& all[0] == indent(depth) + rows[0].content
            &&& rows[0].is_display ==> below.is_prefix_of(all.skip(1))
            &&& rows[0].is_display ==> all.skip(1 + below.len() as int) == preview(
                navs,
                rows.drop_first(),
                depth,
                (limit - 1 - below.len()) as nat,
            )
            &&& !rows[0].is_display ==> all.skip(1) == preview(
                navs,
                rows.drop_first(),
                depth,
                (limit - 1) as nat,
            )
        }),
{
    lemma_preview_len(navs, rows, depth, limit);
    let kids = ranked_children(navs, rows[0].id, false);
    lemma_preview_len(navs, kids, depth + 1, (limit - 1) as nat);
    let below = preview(navs, kids, depth + 1, (limit - 1) as nat);
    let all = preview(navs, rows, depth, limit);
    let head = seq![indent(depth) + rows[0].content];
    if rows[0].is_display {
        let rest = preview(
            navs,
            rows.drop_first(),
            depth,
            (limit - 1 - below.len()) as nat,
        );
        assert(all == head + below + rest);
        assert(all.skip(1) =~= below + rest);
        assert(all.skip(1 + below.len() as int) =~= rest);
    } else {
        let rest = preview(navs, rows.drop_first(), depth, (limit - 1) as nat);
        assert(all =~= head + rest);
        assert(all.skip(1) =~= rest);
    }
}

} // verus!
