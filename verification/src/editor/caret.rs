//! The caret in an editable region: from its place in the tree to a position in the
//! text, and back.

use crate::editor::dom::{plain_dom_point_for_utf16, plain_point_utf16, DomNode, DomPoint, RowMark};
use crate::editor::layout::VisualLine;
use crate::editor::lines::utf16_line_col_at_pos;
use crate::text::{split_lines_of, to_chars};
use vstd::prelude::*;

verus! {

use crate::editor::dom::{
    law_point_of_position, lemma_below_is_shorter, node_at, plain_text, position_of, search_start,
    text_point, PointView,
};
use crate::editor::edit::line_index_at;
use crate::editor::layout::{law_rows_show_the_text, rows_text, rows_wf, visual_rows, RowView};
use crate::text::{min_of, split_lines, utf16_len};

// ---- rows ----

/// A row of a region: where it is, and its mark.
#[derive(Debug, PartialEq, Eq)]
pub struct RowPlace {
    pub path: Vec<usize>,
    pub mark: RowMark,
}

#[verifier::ext_equal]
pub struct RowPlaceView {
    pub path: Seq<usize>,
    pub mark: RowMark,
}

impl View for RowPlace {
    type V = RowPlaceView;

    open spec fn view(&self) -> RowPlaceView {
        RowPlaceView { path: self.path@, mark: self.mark }
    }
}

pub open spec fn place_views(rows: Seq<RowPlace>) -> Seq<RowPlaceView> {
    Seq::new(rows.len(), |i: int| rows[i]@)
}

/// The mark of a node, if it is a row.
pub open spec fn mark_of(n: DomNode) -> Option<RowMark> {
    match n {
        DomNode::Text(_) => None,
        DomNode::Element { row, .. } => row,
    }
}

/// A node that is at `at`, if it is a row.
pub open spec fn own_row(n: DomNode, at: Seq<usize>) -> Seq<RowPlaceView> {
    match mark_of(n) {
        Some(mark) => seq![RowPlaceView { path: at, mark }],
        None => Seq::empty(),
    }
}

/// The rows below a node that is at `at`, in order.
pub open spec fn rows_below(n: DomNode, at: Seq<usize>) -> Seq<RowPlaceView>
    decreases n,
{
    match n {
        DomNode::Text(_) => Seq::empty(),
        DomNode::Element { children, .. } => rows_among(children@, at),
    }
}

/// The rows in the children of a node that is at `at`, in order. Each child comes before
/// what is below it.
pub open spec fn rows_among(ns: Seq<DomNode>, at: Seq<usize>) -> Seq<RowPlaceView>
    decreases ns,
{
    if ns.len() == 0 {
        Seq::empty()
    } else {
        let last = at.push((ns.len() - 1) as usize);
        rows_among(ns.drop_last(), at) + own_row(ns.last(), last) + rows_below(ns.last(), last)
    }
}

/// The rows of a region, in order.
pub fn collect_rows(root: &DomNode) -> (r: Vec<RowPlace>)
    ensures
        place_views(r@) == rows_below(*root, Seq::empty()),
{
    let mut out: Vec<RowPlace> = Vec::new();
    let at: Vec<usize> = Vec::new();
    assert(at@ =~= Seq::<usize>::empty());
    push_rows_below(root, &at, &mut out);
    assert(place_views(out@) =~= rows_below(*root, Seq::empty()));
    out
}

fn push_rows_below(node: &DomNode, at: &Vec<usize>, out: &mut Vec<RowPlace>)
    ensures
        place_views(final(out)@) == place_views(old(out)@) + rows_below(*node, at@),
    decreases *node,
{
    let ghost start = place_views(out@);
    match node {
        DomNode::Text(_) => {
            assert(start + rows_below(*node, at@) =~= start);
        },
        DomNode::Element { children, .. } => {
            push_rows_among(children, at, out);
        },
    }
}

fn push_rows_among(children: &Vec<DomNode>, at: &Vec<usize>, out: &mut Vec<RowPlace>)
    ensures
        place_views(final(out)@) == place_views(old(out)@) + rows_among(children@, at@),
    decreases *children,
{
    let ghost start = place_views(out@);
    let mut i: usize = 0;
    assert(start + rows_among(children@.take(0), at@) =~= start);
    while i < children.len()
        invariant
            i <= children@.len(),
            place_views(out@) == start + rows_among(children@.take(i as int), at@),
        decreases children@.len() - i,
    {
        assert(children@.take(i + 1).drop_last() =~= children@.take(i as int));
        let mut below: Vec<usize> = at.clone();
        below.push(i);
        assert(below@ =~= at@.push(i));
        let ghost before = place_views(out@);
        if let DomNode::Element { row: Some(mark), .. } = &children[i] {
            let path: Vec<usize> = below.clone();
            assert(path@ =~= below@);
            out.push(RowPlace { path, mark: *mark });
            assert(place_views(out@) =~= before.push(RowPlaceView { path: below@, mark: *mark }));
        }
        push_rows_below(&children[i], &below, out);
        assert(place_views(out@) =~= before + own_row(children@[i as int], below@) + rows_below(
            children@[i as int],
            below@,
        ));
        assert(place_views(out@) =~= start + rows_among(children@.take(i + 1), at@));
        i = i + 1;
    }
    assert(children@.take(children@.len() as int) =~= children@);
}

/// How far along a path the last row is, the start included.
pub open spec fn row_on_path(n: DomNode, path: Seq<usize>) -> Option<int>
    decreases path.len(),
{
    let here = if mark_of(n) is Some {
        Some(0int)
    } else {
        None
    };
    if path.len() == 0 {
        here
    } else {
        match n {
            DomNode::Text(_) => here,
            DomNode::Element { children, .. } => if path[0] < children@.len() {
                match row_on_path(children@[path[0] as int], path.drop_first()) {
                    Some(k) => Some(k + 1),
                    None => here,
                }
            } else {
                here
            },
        }
    }
}

/// The last row along a path: how far along it is, and the row itself.
fn find_row<'a>(root: &'a DomNode, path: &[usize], from: usize) -> (r: Option<
    (usize, &'a DomNode, RowMark),
>)
    requires
        from <= path@.len(),
    ensures
        match r {
            Some((k, row, mark)) => {
                &&& from <= k <= path@.len()
                &&& row_on_path(*root, path@.skip(from as int)) == Some(k - from)
                &&& node_at(*root, path@.subrange(from as int, k as int)) == Some(*row)
                &&& mark_of(*row) == Some(mark)
            },
            None => row_on_path(*root, path@.skip(from as int)) is None,
        },
    decreases path@.len() - from,
{
    let ghost rest = path@.skip(from as int);
    match root {
        DomNode::Text(_) => None,
        DomNode::Element { row, children, .. } => {
            if from < path.len() {
                let k: usize = path[from];
                assert(rest[0] == k);
                assert(rest.drop_first() =~= path@.skip(from + 1));
                if k < children.len() {
                    if let Some((j, found, mark)) = find_row(&children[k], path, from + 1) {
                        assert(path@.subrange(from as int, j as int).drop_first()
                            =~= path@.subrange(from + 1, j as int));
                        return Some((j, found, mark));
                    }
                }
            }
            assert(path@.subrange(from as int, from as int) =~= Seq::<usize>::empty());
            match row {
                Some(mark) => Some((from, root, *mark)),
                None => None,
            }
        },
    }
}

// ---- from a point to a position ----

/// Behind a row, and behind the line end that follows it.
pub open spec fn behind_row(mark: RowMark) -> Option<int> {
    match (mark.start_utf16, mark.len_utf16) {
        (Some(start), Some(len)) => Some(
            start + len + if mark.hard_break_after {
                1int
            } else {
                0
            },
        ),
        _ => None,
    }
}

/// The position of a point in a region. Between rows, the marks tell it. Within a row,
/// its mark tells where the row starts and how much of it can be passed.
pub open spec fn region_position(root: DomNode, p: PointView) -> Option<int> {
    if p.path.len() == 0 {
        let rows = rows_below(root, Seq::empty());
        let k = min_of(p.offset, rows.len() as int);
        if rows.len() == 0 {
            position_of(root, p)
        } else if k == 0 {
            Some(0)
        } else {
            behind_row(rows[k - 1].mark)
        }
    } else {
        match row_on_path(root, p.path) {
            None => position_of(root, p),
            Some(k) => {
                let row = node_at(root, p.path.take(k))->0;
                let mark = mark_of(row)->0;
                let rel = match position_of(
                    row,
                    PointView { path: p.path.skip(k), offset: p.offset },
                ) {
                    Some(rel) => rel,
                    None => 0,
                };
                match (mark.start_utf16, mark.len_utf16) {
                    (Some(start), Some(len)) => Some(start + min_of(rel, len as int)),
                    _ => None,
                }
            },
        }
    }
}

/// The position of a point in a region, if it can be told.
fn region_position_of(root: &DomNode, point: &DomPoint) -> (r: Option<u64>)
    requires
        utf16_len(plain_text(*root)) <= u32::MAX,
    ensures
        match r {
            Some(pos) => region_position(*root, point@) == Some(pos as int),
            None => region_position(*root, point@) is None,
        },
{
    let path: &[usize] = point.path.as_slice();
    if path.len() == 0 {
        let rows = collect_rows(root);
        let k: usize = if point.offset <= rows.len() {
            point.offset
        } else {
            rows.len()
        };
        if rows.len() > 0 {
            if k == 0 {
                return Some(0);
            }
            let mark: RowMark = rows[k - 1].mark;
            assert(place_views(rows@)[k - 1].mark == mark);
            return match (mark.start_utf16, mark.len_utf16) {
                (Some(start), Some(len)) => {
                    let hard: u64 = if mark.hard_break_after {
                        1
                    } else {
                        0
                    };
                    Some(start as u64 + len as u64 + hard)
                },
                _ => None,
            };
        }
    } else {
        assert(path@.skip(0) =~= path@);
        if let Some((k, row, mark)) = find_row(root, path, 0) {
            assert(path@.subrange(0, k as int) =~= path@.take(k as int));
            proof {
                lemma_below_is_shorter(*root, path@.take(k as int));
            }
            let rest: &[usize] = vstd::slice::slice_subrange(path, k, path.len());
            assert(rest@ =~= path@.skip(k as int));
            let rel: u32 = match plain_point_utf16(row, rest, point.offset) {
                Some(rel) => rel,
                None => 0,
            };
            return match (mark.start_utf16, mark.len_utf16) {
                (Some(start), Some(len)) => {
                    let part: u32 = if rel <= len {
                        rel
                    } else {
                        len
                    };
                    Some(start as u64 + part as u64)
                },
                _ => None,
            };
        }
    }
    match plain_point_utf16(root, path, point.offset) {
        Some(pos) => Some(pos as u64),
        None => None,
    }
}

/// What can be known of the selection.
#[derive(Debug, PartialEq, Eq)]
pub enum SelectionSource {
    /// There is no window to ask.
    NoWindow,
    /// There is no selection, it is not in the region, or it cannot be read.
    Elsewhere,
    /// Its first point, and its last, if that can be read.
    Points { start: DomPoint, end: Option<DomPoint> },
}

/// What the selection of a region is taken for.
pub open spec fn selection_of(root: DomNode, len: int, source: SelectionSource) -> (int, int) {
    match source {
        SelectionSource::NoWindow => (0, 0),
        SelectionSource::Elsewhere => (len, len),
        SelectionSource::Points { start, end } => {
            let first = match region_position(root, start@) {
                Some(pos) => pos,
                None => len,
            };
            match end {
                None => (min_of(first, u32::MAX as int), min_of(first, u32::MAX as int)),
                Some(end) => {
                    let last = match region_position(root, end@) {
                        Some(pos) => pos,
                        None => first,
                    };
                    (min_of(first, len), min_of(last, len))
                },
            }
        },
    }
}

fn at_most(pos: u64, len: u32) -> (r: u32)
    ensures
        r == min_of(pos as int, len as int),
{
    if pos <= len as u64 {
        pos as u32
    } else {
        len
    }
}

/// The first and the last position of the selection in a region that shows `len` units
/// of text, and `len`.
pub fn ce_selection_utf16(root: &DomNode, len: u32, source: &SelectionSource) -> (r: (u32, u32, u32))
    requires
        utf16_len(plain_text(*root)) <= u32::MAX,
    ensures
        r.0 == selection_of(*root, len as int, *source).0,
        r.1 == selection_of(*root, len as int, *source).1,
        r.2 == len,
{
    match source {
        SelectionSource::NoWindow => (0, 0, len),
        SelectionSource::Elsewhere => (len, len, len),
        SelectionSource::Points { start, end } => {
            let first: u64 = match region_position_of(root, start) {
                Some(pos) => pos,
                None => len as u64,
            };
            match end {
                None => {
                    let both: u32 = at_most(first, u32::MAX);
                    (both, both, len)
                },
                Some(end) => {
                    let last: u64 = match region_position_of(root, end) {
                        Some(pos) => pos,
                        None => first,
                    };
                    (at_most(first, len), at_most(last, len), len)
                },
            }
        },
    }
}

/// The row of the caret and the number of rows. Without rows, the lines of the text count
/// for rows; without a caret in the region there is nothing to tell.
pub open spec fn line_info_of(root: DomNode, text: Seq<char>, anchor: Option<Seq<usize>>, caret: int) -> (
    int,
    int,
) {
    match anchor {
        None => (0, 0),
        Some(path) => {
            let rows = rows_below(root, Seq::empty());
            if rows.len() == 0 {
                (line_index_at(text, caret), split_lines(text).len() as int)
            } else {
                let index = match row_on_path(root, path) {
                    None => 0,
                    Some(k) => match (mark_of(node_at(root, path.take(k))->0)->0).index {
                        None => 0,
                        Some(i) => i as int,
                    },
                };
                (min_of(index, rows.len() - 1), rows.len() as int)
            }
        },
    }
}

/// The row of the caret and the number of rows. `anchor` is the path to the node that
/// holds the caret, if it is in the region, and `caret` its position.
pub fn ce_current_line_info(root: &DomNode, text: &str, anchor: Option<&[usize]>, caret: u32) -> (r: (
    u32,
    u32,
))
    requires
        utf16_len(text@) < u32::MAX,
        rows_below(*root, Seq::empty()).len() <= u32::MAX,
    ensures
        (r.0 as int, r.1 as int) == line_info_of(
            *root,
            text@,
            match anchor {
                Some(path) => Some(path@),
                None => None,
            },
            caret as int,
        ),
{
    let path: &[usize] = match anchor {
        Some(path) => path,
        None => {
            return (0, 0);
        },
    };
    let rows = collect_rows(root);
    assert(place_views(rows@).len() == rows@.len());
    if rows.len() == 0 {
        let chars = to_chars(text);
        let total: usize = split_lines_of(chars.as_slice()).len();
        proof {
            crate::text::lemma_split_lines_nonempty(text@);
            crate::text::lemma_len_bounds(text@);
        }
        let (line, _col) = utf16_line_col_at_pos(text, caret);
        return (line, total as u32);
    }
    let total: u32 = rows.len() as u32;
    assert(path@.skip(0) =~= path@);
    let index: u32 = match find_row(root, path, 0) {
        Some((k, _row, mark)) => {
            assert(path@.subrange(0, k as int) =~= path@.take(k as int));
            match mark.index {
                Some(i) => i,
                None => 0,
            }
        },
        None => 0,
    };
    (
        if index <= total - 1 {
            index
        } else {
            total - 1
        },
        total,
    )
}

// ---- from a position to a point ----

/// The point at a position in a row: in one of its texts, or behind all of it if it has
/// none to put the point in.
pub open spec fn point_in_row(root: DomNode, row: RowPlaceView, rel: int) -> PointView {
    match node_at(root, row.path) {
        Some(DomNode::Element { caret_anchor, row: mark, children }) => match text_point(
            DomNode::Element { caret_anchor, row: mark, children },
            search_start(rel),
        ) {
            Some(p) => PointView { path: row.path + p.path, offset: p.offset },
            None => PointView { path: row.path, offset: children@.len() as int },
        },
        _ => PointView { path: row.path, offset: 0 },
    }
}

/// The point at a position, looked for from row `i` on.
pub open spec fn point_in_rows(
    root: DomNode,
    rows: Seq<RowPlaceView>,
    i: int,
    pos: int,
) -> Option<PointView>
    decreases rows.len() - i,
{
    if i >= rows.len() {
        let last = rows.last();
        Some(
            point_in_row(
                root,
                last,
                match last.mark.len_utf16 {
                    Some(len) => len as int,
                    None => 0,
                },
            ),
        )
    } else {
        match (rows[i].mark.start_utf16, rows[i].mark.len_utf16) {
            (Some(start), Some(len)) => if pos < start {
                Some(point_in_row(root, rows[i], 0))
            } else if pos <= start + len {
                Some(point_in_row(root, rows[i], pos - start))
            } else if rows[i].mark.hard_break_after && pos == start + len + 1 {
                if i + 1 < rows.len() {
                    Some(point_in_row(root, rows[i + 1], 0))
                } else {
                    Some(point_in_row(root, rows[i], len as int))
                }
            } else {
                point_in_rows(root, rows, i + 1, pos)
            },
            _ => None,
        }
    }
}

/// The point at a position in a region that shows `len` units of text.
pub open spec fn region_point(root: DomNode, len: int, pos: int) -> Option<PointView> {
    let rows = rows_below(root, Seq::empty());
    if rows.len() == 0 {
        match text_point(root, search_start(pos)) {
            Some(p) => Some(p),
            None => Some(PointView { path: Seq::empty(), offset: 0 }),
        }
    } else {
        point_in_rows(root, rows, 0, min_of(pos, len))
    }
}

fn find_node<'a>(root: &'a DomNode, path: &[usize], from: usize) -> (r: Option<&'a DomNode>)
    requires
        from <= path@.len(),
    ensures
        match r {
            Some(n) => node_at(*root, path@.skip(from as int)) == Some(*n),
            None => node_at(*root, path@.skip(from as int)) is None,
        },
    decreases path@.len() - from,
{
    if from == path.len() {
        return Some(root);
    }
    match root {
        DomNode::Text(_) => None,
        DomNode::Element { children, .. } => {
            let k: usize = path[from];
            assert(path@.skip(from as int)[0] == k);
            assert(path@.skip(from as int).drop_first() =~= path@.skip(from + 1));
            if k < children.len() {
                find_node(&children[k], path, from + 1)
            } else {
                None
            }
        },
    }
}

fn join_paths(a: &Vec<usize>, b: &Vec<usize>) -> (r: Vec<usize>)
    ensures
        r@ == a@ + b@,
{
    let mut out: Vec<usize> = a.clone();
    assert(out@ =~= a@ + b@.take(0));
    let mut i: usize = 0;
    while i < b.len()
        invariant
            i <= b@.len(),
            out@ == a@ + b@.take(i as int),
        decreases b@.len() - i,
    {
        out.push(b[i]);
        assert(out@ =~= a@ + b@.take(i + 1));
        i = i + 1;
    }
    assert(b@.take(b@.len() as int) =~= b@);
    out
}

fn row_point(root: &DomNode, row: &RowPlace, rel: u32) -> (r: DomPoint)
    requires
        utf16_len(plain_text(*root)) <= i32::MAX,
    ensures
        r@ == point_in_row(*root, row@, rel as int),
{
    let path: Vec<usize> = row.path.clone();
    assert(path@ =~= row.path@);
    assert(row.path@.skip(0) =~= row.path@);
    match find_node(root, row.path.as_slice(), 0) {
        Some(node) => {
            proof {
                lemma_below_is_shorter(*root, row.path@);
            }
            match node {
                DomNode::Element { children, .. } => {
                    match plain_dom_point_for_utf16(node, rel) {
                        Some(p) => DomPoint {
                            path: join_paths(&row.path, &p.path),
                            offset: p.offset,
                        },
                        None => DomPoint { path, offset: children.len() },
                    }
                },
                DomNode::Text(_) => DomPoint { path, offset: 0 },
            }
        },
        None => DomPoint { path, offset: 0 },
    }
}

/// The point at a position in a region that shows `len` units of text. There is none if
/// a row on the way there does not tell its place.
pub fn ce_resolve_dom_point_for_utf16(root: &DomNode, len: u32, pos_utf16: u32) -> (r: Option<DomPoint>)
    requires
        utf16_len(plain_text(*root)) <= i32::MAX,
    ensures
        match r {
            Some(p) => region_point(*root, len as int, pos_utf16 as int) == Some(p@),
            None => region_point(*root, len as int, pos_utf16 as int) is None,
        },
{
    let rows = collect_rows(root);
    let ghost places = place_views(rows@);
    if rows.len() == 0 {
        return match plain_dom_point_for_utf16(root, pos_utf16) {
            Some(p) => Some(p),
            None => {
                let path: Vec<usize> = Vec::new();
                assert(path@ =~= Seq::<usize>::empty());
                Some(DomPoint { path, offset: 0 })
            },
        };
    }
    let pos: u32 = if pos_utf16 <= len {
        pos_utf16
    } else {
        len
    };
    let n: usize = rows.len();
    let mut i: usize = 0;
    while i < n
        invariant
            i <= n,
            n == rows@.len(),
            n > 0,
            places == place_views(rows@),
            places == rows_below(*root, Seq::empty()),
            pos == min_of(pos_utf16 as int, len as int),
            utf16_len(plain_text(*root)) <= i32::MAX,
            point_in_rows(*root, places, 0, pos as int) == point_in_rows(
                *root,
                places,
                i as int,
                pos as int,
            ),
        decreases n - i,
    {
        let row: &RowPlace = &rows[i];
        assert(places[i as int] == row@);
        match (row.mark.start_utf16, row.mark.len_utf16) {
            (Some(start), Some(row_len)) => {
                let end: u64 = start as u64 + row_len as u64;
                if pos < start {
                    return Some(row_point(root, row, 0));
                }
                if pos as u64 <= end {
                    return Some(row_point(root, row, pos - start));
                }
                if row.mark.hard_break_after && pos as u64 == end + 1 {
                    if i + 1 < n {
                        assert(places[i + 1] == rows@[i + 1]@);
                        return Some(row_point(root, &rows[i + 1], 0));
                    }
                    return Some(row_point(root, row, row_len));
                }
            },
            _ => {
                return None;
            },
        }
        i = i + 1;
    }
    let last: &RowPlace = &rows[n - 1];
    assert(places.last() == last@);
    let last_len: u32 = match last.mark.len_utf16 {
        Some(row_len) => row_len,
        None => 0,
    };
    Some(row_point(root, last, last_len))
}

/// The caret within a row, if it is there.
pub fn caret_in_row(line: &VisualLine, caret_utf16: Option<u32>) -> (r: Option<u32>)
    ensures
        match r {
            Some(rel) => {
                &&& caret_utf16 is Some
                &&& line.start_utf16 + rel == caret_utf16->0
                &&& rel <= line.len_utf16
            },
            None => caret_utf16 matches Some(caret) ==> !(line.start_utf16 <= caret
                <= line.start_utf16 + line.len_utf16),
        },
{
    match caret_utf16 {
        Some(caret) => {
            if caret >= line.start_utf16 && caret - line.start_utf16 <= line.len_utf16 {
                Some(caret - line.start_utf16)
            } else {
                None
            }
        },
        None => None,
    }
}

// ---- laws ----

/// Whether a tree shows rows: one child for each, marked with the row's place, holding as
/// much text, and no row in it.
pub open spec fn shows_rows(root: DomNode, rows: Seq<RowView>) -> bool {
    match root {
        DomNode::Text(_) => false,
        DomNode::Element { caret_anchor, row, children } => {
            &&& row is None
            &&& children@.len() == rows.len()
            &&& forall|i: int|
                0 <= i < rows.len() ==> shows_row(#[trigger] children@[i], rows[i])
        },
    }
}

/// Whether a node shows a row.
pub open spec fn shows_row(n: DomNode, row: RowView) -> bool {
    &&& mark_of(n) matches Some(mark) && {
        &&& mark.start_utf16 matches Some(start) && start == row.start
        &&& mark.len_utf16 matches Some(len) && len == row.len
        &&& mark.hard_break_after == row.hard_break_after
    }
    &&& utf16_len(plain_text(n)) == row.len
    &&& rows_below(n, Seq::empty()).len() == 0
}

/// How many rows there are does not depend on where the node is.
proof fn lemma_row_count_below(n: DomNode, a: Seq<usize>, b: Seq<usize>)
    ensures
        rows_below(n, a).len() == rows_below(n, b).len(),
    decreases n, 0int,
{
    if let DomNode::Element { children, .. } = n {
        lemma_row_count_among(children@, a, b);
    }
}

proof fn lemma_row_count_among(ns: Seq<DomNode>, a: Seq<usize>, b: Seq<usize>)
    ensures
        rows_among(ns, a).len() == rows_among(ns, b).len(),
    decreases ns, 1int,
{
    if ns.len() > 0 {
        let k = (ns.len() - 1) as usize;
        lemma_row_count_among(ns.drop_last(), a, b);
        lemma_row_count_below(ns.last(), a.push(k), b.push(k));
    }
}

/// Where there is no row among nodes, there is none in any of them.
proof fn lemma_no_rows_among(ns: Seq<DomNode>, i: int)
    requires
        0 <= i < ns.len(),
        rows_among(ns, Seq::empty()).len() == 0,
    ensures
        mark_of(ns[i]) is None,
        rows_below(ns[i], Seq::empty()).len() == 0,
    decreases ns.len(),
{
    let k = (ns.len() - 1) as usize;
    let at = Seq::<usize>::empty().push(k);
    if i == ns.len() - 1 {
        lemma_row_count_below(ns[i], at, Seq::empty());
    } else {
        lemma_no_rows_among(ns.drop_last(), i);
    }
}

/// Where there is no row below a node, every path from it ends at the node's own mark.
proof fn lemma_no_row_on_path(n: DomNode, path: Seq<usize>)
    requires
        rows_below(n, Seq::empty()).len() == 0,
    ensures
        row_on_path(n, path) == if mark_of(n) is Some {
            Some(0int)
        } else {
            None
        },
    decreases path.len(),
{
    if path.len() > 0 {
        if let DomNode::Element { children, .. } = n {
            if path[0] < children@.len() {
                lemma_no_rows_among(children@, path[0] as int);
                lemma_no_row_on_path(children@[path[0] as int], path.drop_first());
            }
        }
    }
}

proof fn lemma_rows_of_shown(ns: Seq<DomNode>, rows: Seq<RowView>)
    requires
        ns.len() == rows.len(),
        ns.len() <= usize::MAX,
        forall|i: int| 0 <= i < rows.len() ==> shows_row(#[trigger] ns[i], rows[i]),
    ensures
        ({
            let places = rows_among(ns, Seq::empty());
            &&& places.len() == ns.len()
            &&& forall|i: int|
                0 <= i < ns.len() ==> (#[trigger] places[i]).path == seq![i as usize]
                    && Some(places[i].mark) == mark_of(ns[i])
        }),
    decreases ns.len(),
{
    if ns.len() > 0 {
        let p = ns.drop_last();
        let q = rows.drop_last();
        assert forall|i: int| 0 <= i < q.len() implies shows_row(#[trigger] p[i], q[i]) by {
            assert(shows_row(ns[i], rows[i]));
        }
        lemma_rows_of_shown(p, q);
        let k = (ns.len() - 1) as usize;
        assert(shows_row(ns[k as int], rows[k as int]));
        let at = Seq::<usize>::empty().push(k);
        lemma_row_count_below(ns.last(), at, Seq::empty());
        assert(at =~= seq![k]);
        let places = rows_among(ns, Seq::empty());
        assert forall|i: int| 0 <= i < ns.len() implies (#[trigger] places[i]).path
            == seq![i as usize] && Some(places[i].mark) == mark_of(ns[i]) by {
            if i < p.len() {
                assert(places[i] == rows_among(p, Seq::empty())[i]);
                assert(p[i] == ns[i]);
            }
        }
    }
}

/// In a row that is shown, the point at a position is at that position of the text.
proof fn lemma_point_in_shown_row(root: DomNode, rows: Seq<RowView>, i: int, rel: int)
    requires
        shows_rows(root, rows),
        0 <= i < rows.len(),
        0 <= rel <= rows[i].len,
        rel <= i32::MAX,
    ensures
        ({
            let places = rows_below(root, Seq::empty());
            region_position(root, point_in_row(root, places[i], rel)) == Some(rows[i].start + rel)
        }),
{
    if let DomNode::Element { children, .. } = root {
        let kids = children@;
        assert(kids.len() == children.len());
        lemma_rows_of_shown(kids, rows);
        let places = rows_below(root, Seq::empty());
        let k = i as usize;
        assert(shows_row(kids[i], rows[i]));
        let path = seq![k];
        assert(places[i].path == path);
        assert(path.drop_first() =~= Seq::<usize>::empty());
        assert(node_at(kids[i], Seq::<usize>::empty()) == Some(kids[i]));
        assert(node_at(root, path) == Some(kids[i]));
        let p = point_in_row(root, places[i], rel);
        law_point_of_position(kids[i], rel);
        match text_point(kids[i], rel) {
            Some(q) => {
                assert(p.path == path + q.path);
                assert(p.path.drop_first() =~= q.path);
                assert(p.path[0] == k);
                lemma_no_row_on_path(kids[i], q.path);
                assert(row_on_path(root, p.path) == Some(1int));
                assert(p.path.take(1) =~= path);
                assert(p.path.skip(1) =~= q.path);
                assert((PointView { path: p.path.skip(1), offset: p.offset }) == q);
            },
            None => {
                assert(rows[i].len == 0) by {
                    crate::text::lemma_len_bounds(plain_text(kids[i]));
                }
                assert(p.path == path);
                assert(row_on_path(kids[i], Seq::<usize>::empty()) == Some(0int));
                assert(row_on_path(root, p.path) == Some(1int));
                assert(p.path.take(1) =~= path);
                assert(p.path.skip(1) =~= Seq::<usize>::empty());
                if let DomNode::Element { children: below, .. } = kids[i] {
                    assert(below@.take(below@.len() as int) =~= below@);
                }
            },
        }
    }
}

/// Whether rows follow on each other and show `len` units of text.
#[verifier::opaque]
spec fn rows_follow(rows: Seq<RowView>, len: int) -> bool {
    rows_wf(rows) && utf16_len(rows_text(rows)) == len
}

/// A row starts where the one before it ends, and the text ends with the last one.
proof fn lemma_next_row(rows: Seq<RowView>, len: int, i: int)
    requires
        rows_follow(rows, len),
        0 <= i < rows.len(),
    ensures
        ({
            let next = rows[i].start + rows[i].len + if rows[i].hard_break_after {
                1int
            } else {
                0
            };
            if i + 1 < rows.len() {
                rows[i + 1].start == next
            } else {
                len == next
            }
        }),
{
    reveal(rows_follow);
    let p = rows.take(i + 1);
    assert(p.drop_last() =~= rows.take(i));
    assert(p.last() == rows[i]);
    assert(rows[i].start == utf16_len(rows_text(rows.take(i))));
    crate::text::lemma_utf16_concat(rows_text(rows.take(i)), rows[i].text);
    crate::text::lemma_utf16_push(rows_text(rows.take(i)) + rows[i].text, '\n');
    if i + 1 < rows.len() {
        assert(rows[i + 1].start == utf16_len(rows_text(p)));
    } else {
        assert(p =~= rows);
    }
}

/// Whether a point of a region is at a position.
#[verifier::opaque]
spec fn is_at(root: DomNode, p: PointView, pos: int) -> bool {
    region_position(root, p) == Some(pos)
}

proof fn lemma_shown_row_is_at(root: DomNode, rows: Seq<RowView>, i: int, rel: int)
    requires
        shows_rows(root, rows),
        0 <= i < rows.len(),
        0 <= rel <= rows[i].len,
        rel <= i32::MAX,
    ensures
        is_at(
            root,
            point_in_row(root, rows_below(root, Seq::empty())[i], rel),
            rows[i].start + rel,
        ),
{
    reveal(is_at);
    lemma_point_in_shown_row(root, rows, i, rel);
}

/// The rows found in a tree that shows rows are those rows.
proof fn lemma_places_of_shown(root: DomNode, rows: Seq<RowView>)
    requires
        shows_rows(root, rows),
    ensures
        ({
            let places = rows_below(root, Seq::empty());
            &&& places.len() == rows.len()
            &&& forall|i: int|
                0 <= i < rows.len() ==> {
                    &&& (#[trigger] places[i]).mark.start_utf16 matches Some(start) && start
                        == rows[i].start
                    &&& places[i].mark.len_utf16 matches Some(len) && len == rows[i].len
                    &&& places[i].mark.hard_break_after == rows[i].hard_break_after
                }
        }),
{
    if let DomNode::Element { children, .. } = root {
        assert(children@.len() == children.len());
        lemma_rows_of_shown(children@, rows);
        let places = rows_below(root, Seq::empty());
        assert forall|i: int| 0 <= i < rows.len() implies {
            &&& (#[trigger] places[i]).mark.start_utf16 matches Some(start) && start
                == rows[i].start
            &&& places[i].mark.len_utf16 matches Some(len) && len == rows[i].len
            &&& places[i].mark.hard_break_after == rows[i].hard_break_after
        } by {
            assert(shows_row(children@[i], rows[i]));
        }
    }
}

proof fn lemma_caret_from_row(
    root: DomNode,
    places: Seq<RowPlaceView>,
    rows: Seq<RowView>,
    len: int,
    i: int,
    pos: int,
)
    requires
        shows_rows(root, rows),
        places == rows_below(root, Seq::empty()),
        rows_follow(rows, len),
        0 <= i < rows.len(),
        !rows.last().hard_break_after,
        len <= i32::MAX,
        0 <= rows[i].start <= pos <= len,
    ensures
        point_in_rows(root, places, i, pos) matches Some(p) && is_at(root, p, pos),
    decreases rows.len() - i,
{
    lemma_places_of_shown(root, rows);
    let row = rows[i];
    assert(places[i].mark.start_utf16 is Some);
    lemma_next_row(rows, len, i);
    if pos <= row.start + row.len {
        lemma_shown_row_is_at(root, rows, i, pos - row.start);
    } else if row.hard_break_after && pos == row.start + row.len + 1 {
        lemma_shown_row_is_at(root, rows, i + 1, 0);
    } else {
        lemma_caret_from_row(root, places, rows, len, i + 1, pos);
    }
}

/// Putting the caret at a position of a text whose rows are shown and reading it gives
/// the position back, wherever the lines are cut.
pub proof fn law_caret_reads_back(root: DomNode, s: Seq<char>, cuts: Seq<Seq<usize>>, pos: int)
    requires
        shows_rows(root, visual_rows(split_lines(s), cuts, split_lines(s).len() as int)),
        utf16_len(s) <= i32::MAX,
        0 <= pos <= utf16_len(s),
    ensures
        region_point(root, utf16_len(s) as int, pos) matches Some(p) && region_position(root, p)
            == Some(pos),
{
    let rows = visual_rows(split_lines(s), cuts, split_lines(s).len() as int);
    law_rows_show_the_text(s, cuts);
    let len = utf16_len(s) as int;
    lemma_places_of_shown(root, rows);
    assert(rows.take(0) =~= Seq::<RowView>::empty());
    assert(rows[0].start == 0);
    assert(rows_follow(rows, len)) by {
        reveal(rows_follow);
    }
    lemma_caret_from_row(root, rows_below(root, Seq::empty()), rows, len, 0, pos);
    reveal(is_at);
}

/// Selecting from one position to another of a text whose rows are shown, and reading the
/// selection, gives both back. A selection elsewhere counts as the caret at the end.
pub proof fn law_selection_reads_back(
    root: DomNode,
    s: Seq<char>,
    cuts: Seq<Seq<usize>>,
    a: int,
    b: int,
    start: DomPoint,
    end: DomPoint,
)
    requires
        shows_rows(root, visual_rows(split_lines(s), cuts, split_lines(s).len() as int)),
        utf16_len(s) <= i32::MAX,
        0 <= a <= utf16_len(s),
        0 <= b <= utf16_len(s),
        region_point(root, utf16_len(s) as int, a) == Some(start@),
        region_point(root, utf16_len(s) as int, b) == Some(end@),
    ensures
        ({
            let len = utf16_len(s) as int;
            &&& selection_of(root, len, SelectionSource::Points { start, end: Some(end) }) == (a, b)
            &&& selection_of(root, len, SelectionSource::Points { start, end: None }) == (a, a)
            &&& selection_of(root, len, SelectionSource::Elsewhere) == (len, len)
        }),
{
    law_caret_reads_back(root, s, cuts, a);
    law_caret_reads_back(root, s, cuts, b);
}

} // verus!
