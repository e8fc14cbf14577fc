//! The tree of an editable region: the text it stands for, and points in it by
//! position and by node.

use crate::editor::edit::{
    normalize_editor_text_for_persist, serialize_editor_atoms_for_persist, EditorAtom,
};
use crate::text::{from_chars, split_lines_of, to_chars, utf16_len_of};
use vstd::prelude::*;

verus! {

use crate::editor::edit::{
    atoms_text, lemma_normalized_fixed, lemma_normalized_has_no_cr, normalized,
};
use crate::text::{
    join_lines, lemma_len_bounds, lemma_split_join_lines, lemma_split_lines_nonempty,
    lemma_utf16_concat, min_of,
    split_lines, utf16_len,
};

/// What marks an element as a row of the region: its number, where its text starts and
/// how long it is, as far as they can be read, and whether a line end stands behind it.
#[derive(Debug, Clone, Copy, PartialEq, Eq, Structural)]
pub struct RowMark {
    pub index: Option<u32>,
    pub start_utf16: Option<u32>,
    pub len_utf16: Option<u32>,
    pub hard_break_after: bool,
}

/// A node of the region.
#[derive(Debug, PartialEq, Eq)]
pub enum DomNode {
    Text(String),
    Element {
        /// Holds no text of the region: it only keeps a place for the caret.
        caret_anchor: bool,
        row: Option<RowMark>,
        children: Vec<DomNode>,
    },
}

/// A point: the way down to a node by the numbers of the children, and a place in that
/// node. In a text that is a UTF-16 offset, in an element a number of children.
#[derive(Debug, PartialEq, Eq)]
pub struct DomPoint {
    pub path: Vec<usize>,
    pub offset: usize,
}

#[verifier::ext_equal]
pub struct PointView {
    pub path: Seq<usize>,
    pub offset: int,
}

impl View for DomPoint {
    type V = PointView;

    open spec fn view(&self) -> PointView {
        PointView { path: self.path@, offset: self.offset as int }
    }
}

// ---- text of a tree ----

/// All text below a node, in order.
pub open spec fn plain_text(n: DomNode) -> Seq<char>
    decreases n,
{
    match n {
        DomNode::Text(s) => s@,
        DomNode::Element { children, .. } => plain_texts(children@),
    }
}

/// All text below nodes, in order.
pub open spec fn plain_texts(ns: Seq<DomNode>) -> Seq<char>
    decreases ns,
{
    if ns.len() == 0 {
        Seq::empty()
    } else {
        plain_texts(ns.drop_last()) + plain_text(ns.last())
    }
}

proof fn lemma_texts_next(ns: Seq<DomNode>, k: int)
    requires
        0 <= k < ns.len(),
    ensures
        plain_texts(ns.take(k + 1)) == plain_texts(ns.take(k)) + plain_text(ns[k]),
        utf16_len(plain_texts(ns.take(k + 1))) == utf16_len(plain_texts(ns.take(k))) + utf16_len(
            plain_text(ns[k]),
        ),
{
    assert(ns.take(k + 1).drop_last() =~= ns.take(k));
    assert(ns.take(k + 1).last() == ns[k]);
    lemma_utf16_concat(plain_texts(ns.take(k)), plain_text(ns[k]));
}

proof fn lemma_texts_grow(ns: Seq<DomNode>, j: int, k: int)
    requires
        0 <= j <= k <= ns.len(),
    ensures
        utf16_len(plain_texts(ns.take(j))) <= utf16_len(plain_texts(ns.take(k))),
    decreases k - j,
{
    if j < k {
        lemma_texts_next(ns, j);
        lemma_texts_grow(ns, j + 1, k);
    }
}

/// The length of all text below a node.
pub fn plain_subtree_utf16_len(node: &DomNode) -> (r: u32)
    requires
        utf16_len(plain_text(*node)) <= u32::MAX,
    ensures
        r == utf16_len(plain_text(*node)),
    decreases *node,
{
    match node {
        DomNode::Text(s) => utf16_len_of(s.as_str()),
        DomNode::Element { children, .. } => {
            assert(children@.take(children@.len() as int) =~= children@);
            len_of_first(children, children.len())
        },
    }
}

/// The length of all text below the first `k` of some nodes.
fn len_of_first(children: &Vec<DomNode>, k: usize) -> (r: u32)
    requires
        k <= children@.len(),
        utf16_len(plain_texts(children@.take(k as int))) <= u32::MAX,
    ensures
        r == utf16_len(plain_texts(children@.take(k as int))),
    decreases *children,
{
    let mut total: u32 = 0;
    let mut i: usize = 0;
    while i < k
        invariant
            i <= k,
            k <= children@.len(),
            total == utf16_len(plain_texts(children@.take(i as int))),
            utf16_len(plain_texts(children@.take(k as int))) <= u32::MAX,
        decreases k - i,
    {
        proof {
            lemma_texts_next(children@, i as int);
            lemma_texts_grow(children@, i + 1, k as int);
        }
        let n: u32 = plain_subtree_utf16_len(&children[i]);
        total = total + n;
        i = i + 1;
    }
    total
}

// ---- the stored text ----

/// What an atom holds.
pub enum AtomView {
    Text(Seq<char>),
    SoftBreak,
    PlaceholderBreak,
}

impl View for EditorAtom {
    type V = AtomView;

    open spec fn view(&self) -> AtomView {
        match self {
            EditorAtom::Text(s) => AtomView::Text(s@),
            EditorAtom::SoftBreak => AtomView::SoftBreak,
            EditorAtom::PlaceholderBreak => AtomView::PlaceholderBreak,
        }
    }
}

pub open spec fn atom_views(atoms: Seq<EditorAtom>) -> Seq<AtomView> {
    Seq::new(atoms.len(), |i: int| atoms[i]@)
}

/// The text that atoms stand for.
pub open spec fn text_of_atoms(vs: Seq<AtomView>) -> Seq<char>
    decreases vs.len(),
{
    if vs.len() == 0 {
        Seq::empty()
    } else {
        text_of_atoms(vs.drop_last()) + match vs.last() {
            AtomView::Text(s) => normalized(s),
            AtomView::SoftBreak => seq!['\n'],
            AtomView::PlaceholderBreak => Seq::empty(),
        }
    }
}

proof fn lemma_text_of_atoms(atoms: Seq<EditorAtom>)
    ensures
        text_of_atoms(atom_views(atoms)) == atoms_text(atoms),
    decreases atoms.len(),
{
    if atoms.len() > 0 {
        lemma_text_of_atoms(atoms.drop_last());
        assert(atom_views(atoms).drop_last() =~= atom_views(atoms.drop_last()));
        assert(atom_views(atoms).last() == atoms.last()@);
    }
}

/// The atoms of one line: none if it is empty.
pub open spec fn line_atom(line: Seq<char>) -> Seq<AtomView> {
    if line.len() == 0 {
        Seq::empty()
    } else {
        seq![AtomView::Text(line)]
    }
}

/// The atoms of lines, with a break between each two.
pub open spec fn atoms_of_lines(lines: Seq<Seq<char>>) -> Seq<AtomView>
    decreases lines.len(),
{
    if lines.len() == 0 {
        Seq::empty()
    } else if lines.len() == 1 {
        line_atom(lines[0])
    } else {
        atoms_of_lines(lines.drop_last()).push(AtomView::SoftBreak) + line_atom(lines.last())
    }
}

/// The atoms of a text.
pub open spec fn atoms_of_text(raw: Seq<char>) -> Seq<AtomView> {
    atoms_of_lines(split_lines(normalized(raw)))
}

/// The atoms below a node. An anchor has none. A row with a line end behind it counts
/// as a break if it is empty, and is passed over if it is not.
pub open spec fn atoms_of_node(n: DomNode) -> Seq<AtomView>
    decreases n,
{
    match n {
        DomNode::Text(s) => atoms_of_text(s@),
        DomNode::Element { caret_anchor, row, children } => if caret_anchor {
            Seq::empty()
        } else if row is Some && (row->0).hard_break_after {
            if (row->0).len_utf16 is Some && (row->0).len_utf16->0 != 0 {
                Seq::empty()
            } else {
                seq![AtomView::SoftBreak]
            }
        } else {
            atoms_of_nodes(children@)
        },
    }
}

pub open spec fn atoms_of_nodes(ns: Seq<DomNode>) -> Seq<AtomView>
    decreases ns,
{
    if ns.len() == 0 {
        Seq::empty()
    } else {
        atoms_of_nodes(ns.drop_last()) + atoms_of_node(ns.last())
    }
}

/// Appends the atoms of a text.
fn push_text_atoms(raw: &str, out: &mut Vec<EditorAtom>)
    ensures
        atom_views(final(out)@) == atom_views(old(out)@) + atoms_of_text(raw@),
{
    let stored = normalize_editor_text_for_persist(raw);
    let chars = to_chars(stored.as_str());
    let lines = split_lines_of(chars.as_slice());
    let ghost ls = split_lines(normalized(raw@));
    let ghost start = atom_views(out@);
    let mut i: usize = 0;
    assert(start + atoms_of_lines(ls.take(0)) =~= start);
    while i < lines.len()
        invariant
            i <= lines@.len(),
            lines@.len() == ls.len(),
            forall|j: int| 0 <= j < ls.len() ==> (#[trigger] lines@[j])@ == ls[j],
            atom_views(out@) == start + atoms_of_lines(ls.take(i as int)),
        decreases lines@.len() - i,
    {
        assert(ls.take(i + 1).drop_last() =~= ls.take(i as int));
        let line: &Vec<char> = &lines[i];
        let ghost before = out@;
        if i > 0 {
            out.push(EditorAtom::SoftBreak);
            assert(atom_views(out@) =~= atom_views(before).push(AtomView::SoftBreak));
        }
        let ghost between = out@;
        if line.len() > 0 {
            let text = from_chars(line.as_slice(), 0, line.len());
            assert(line@.subrange(0, line@.len() as int) =~= line@);
            out.push(EditorAtom::Text(text));
            assert(atom_views(out@) =~= atom_views(between).push(AtomView::Text(line@)));
        }
        assert(atom_views(out@) =~= atom_views(between) + line_atom(line@));
        assert(atom_views(out@) =~= start + atoms_of_lines(ls.take(i + 1)));
        i = i + 1;
    }
    assert(ls.take(ls.len() as int) =~= ls);
}

/// Appends the atoms below a node.
fn push_node_atoms(node: &DomNode, out: &mut Vec<EditorAtom>)
    ensures
        atom_views(final(out)@) == atom_views(old(out)@) + atoms_of_node(*node),
    decreases *node,
{
    match node {
        DomNode::Text(s) => {
            push_text_atoms(s.as_str(), out);
        },
        DomNode::Element { caret_anchor, row, children } => {
            let ghost start = out@;
            if *caret_anchor {
                assert(atom_views(out@) =~= atom_views(start) + atoms_of_node(*node));
                return ;
            }
            if let Some(mark) = row {
                if mark.hard_break_after {
                    let empty = match mark.len_utf16 {
                        Some(n) => n == 0,
                        None => true,
                    };
                    if empty {
                        out.push(EditorAtom::SoftBreak);
                    }
                    assert(atom_views(out@) =~= atom_views(start) + atoms_of_node(*node));
                    return ;
                }
            }
            push_children_atoms(children, out);
        },
    }
}

fn push_children_atoms(children: &Vec<DomNode>, out: &mut Vec<EditorAtom>)
    ensures
        atom_views(final(out)@) == atom_views(old(out)@) + atoms_of_nodes(children@),
    decreases *children,
{
    let ghost start = atom_views(out@);
    let mut i: usize = 0;
    assert(start + atoms_of_nodes(children@.take(0)) =~= start);
    while i < children.len()
        invariant
            i <= children@.len(),
            atom_views(out@) == start + atoms_of_nodes(children@.take(i as int)),
        decreases children@.len() - i,
    {
        assert(children@.take(i + 1).drop_last() =~= children@.take(i as int));
        push_node_atoms(&children[i], out);
        assert(atom_views(out@) =~= start + atoms_of_nodes(children@.take(i + 1)));
        i = i + 1;
    }
    assert(children@.take(children@.len() as int) =~= children@);
}

/// The content of a region, and the text to store for it.
#[derive(Debug, PartialEq, Eq)]
pub struct EditorDomSnapshot {
    pub atoms: Vec<EditorAtom>,
    pub persisted_text: String,
}

/// What a region holds: the text that it was given, if that is known, and otherwise what
/// its tree holds.
pub open spec fn content_atoms(root: DomNode, kept: Option<Seq<char>>) -> Seq<AtomView> {
    match kept {
        Some(raw) => atoms_of_text(raw),
        None => atoms_of_node(root),
    }
}

/// Reads a region. `kept_text` is the text that it was given, if that is known.
pub fn ce_snapshot(root: &DomNode, kept_text: Option<&str>) -> (r: EditorDomSnapshot)
    ensures
        ({
            let kept = match kept_text {
                Some(s) => Some(s@),
                None => None,
            };
            &&& atom_views(r.atoms@) == content_atoms(*root, kept)
            &&& r.persisted_text@ == text_of_atoms(content_atoms(*root, kept))
        }),
{
    let mut atoms: Vec<EditorAtom> = Vec::new();
    match kept_text {
        Some(raw) => {
            push_text_atoms(raw, &mut atoms);
            assert(atom_views(atoms@) =~= atoms_of_text(raw@));
        },
        None => {
            push_node_atoms(root, &mut atoms);
            assert(atom_views(atoms@) =~= atoms_of_node(*root));
        },
    }
    let persisted_text = serialize_editor_atoms_for_persist(atoms.as_slice());
    proof {
        lemma_text_of_atoms(atoms@);
    }
    EditorDomSnapshot { atoms, persisted_text }
}

/// The text of a region: the text that it was given as it is, if that is known, and
/// otherwise what its tree holds.
pub fn ce_text(root: &DomNode, kept_text: Option<&str>) -> (r: String)
    ensures
        r@ == match kept_text {
            Some(s) => s@,
            None => text_of_atoms(atoms_of_node(*root)),
        },
{
    match kept_text {
        Some(s) => s.to_string(),
        None => ce_snapshot(root, None).persisted_text,
    }
}

proof fn lemma_text_of_atoms_concat(a: Seq<AtomView>, b: Seq<AtomView>)
    ensures
        text_of_atoms(a + b) == text_of_atoms(a) + text_of_atoms(b),
    decreases b.len(),
{
    if b.len() == 0 {
        assert(a + b =~= a);
        assert(text_of_atoms(a) + text_of_atoms(b) =~= text_of_atoms(a));
    } else {
        lemma_text_of_atoms_concat(a, b.drop_last());
        assert((a + b).drop_last() =~= a + b.drop_last());
        assert((a + b).last() == b.last());
        assert(text_of_atoms(a + b) =~= text_of_atoms(a) + text_of_atoms(b));
    }
}

proof fn lemma_text_of_line_atom(line: Seq<char>)
    requires
        !line.contains('\r'),
    ensures
        text_of_atoms(line_atom(line)) == line,
{
    if line.len() == 0 {
        assert(text_of_atoms(line_atom(line)) =~= line);
    } else {
        lemma_normalized_fixed(line);
        let a = line_atom(line);
        assert(a.drop_last() =~= Seq::<AtomView>::empty());
        assert(a.last() == AtomView::Text(line));
        assert(text_of_atoms(a.drop_last()) =~= Seq::<char>::empty());
        assert(text_of_atoms(a) =~= line);
    }
}

proof fn lemma_text_of_lines(lines: Seq<Seq<char>>)
    requires
        lines.len() >= 1,
        forall|i: int| 0 <= i < lines.len() ==> !(#[trigger] lines[i]).contains('\r'),
    ensures
        text_of_atoms(atoms_of_lines(lines)) == join_lines(lines),
    decreases lines.len(),
{
    if lines.len() == 1 {
        assert(!lines[0].contains('\r'));
        lemma_text_of_line_atom(lines[0]);
    } else {
        let p = lines.drop_last();
        assert forall|i: int| 0 <= i < p.len() implies !(#[trigger] p[i]).contains('\r') by {
            assert(p[i] == lines[i]);
        }
        lemma_text_of_lines(p);
        assert(!lines[lines.len() - 1].contains('\r'));
        lemma_text_of_line_atom(lines.last());
        let a = atoms_of_lines(p).push(AtomView::SoftBreak);
        assert(a.drop_last() =~= atoms_of_lines(p));
        assert(text_of_atoms(a) =~= join_lines(p).push('\n'));
        lemma_text_of_atoms_concat(a, line_atom(lines.last()));
    }
}

proof fn lemma_lines_keep_chars(s: Seq<char>, c: char)
    requires
        !s.contains(c),
    ensures
        forall|i: int| 0 <= i < split_lines(s).len() ==> !(#[trigger] split_lines(s)[i]).contains(c),
    decreases s.len(),
{
    let out = split_lines(s);
    if s.len() == 0 {
        assert(out[0] == s);
    } else {
        let p = s.drop_last();
        assert forall|i: int| 0 <= i < p.len() implies p[i] != c by {
            assert(s.contains(s[i]));
        }
        assert(s.contains(s.last()));
        lemma_lines_keep_chars(p, c);
        lemma_split_lines_nonempty(p);
        let rest = split_lines(p);
        assert forall|i: int| 0 <= i < out.len() implies !(#[trigger] out[i]).contains(c) by {
            if i < rest.len() {
                assert(!rest[i].contains(c));
                if out[i].contains(c) {
                    let j = choose|j: int| 0 <= j < out[i].len() && out[i][j] == c;
                    if j < rest[i].len() {
                        assert(rest[i][j] == c);
                    }
                }
            }
        }
    }
}

/// Reading back a text that a region was given yields its stored form.
pub proof fn law_given_text_reads_back(raw: Seq<char>)
    ensures
        text_of_atoms(atoms_of_text(raw)) == normalized(raw),
{
    let s = normalized(raw);
    lemma_normalized_has_no_cr(raw);
    lemma_lines_keep_chars(s, '\r');
    lemma_split_lines_nonempty(s);
    lemma_text_of_lines(split_lines(s));
    lemma_split_join_lines(s);
}

// ---- points ----

/// The node at the end of a path.
pub open spec fn node_at(n: DomNode, path: Seq<usize>) -> Option<DomNode>
    decreases path.len(),
{
    if path.len() == 0 {
        Some(n)
    } else {
        match n {
            DomNode::Text(_) => None,
            DomNode::Element { children, .. } => if path[0] < children@.len() {
                node_at(children@[path[0] as int], path.drop_first())
            } else {
                None
            },
        }
    }
}

/// A node below another holds no more text.
pub proof fn lemma_below_is_shorter(n: DomNode, path: Seq<usize>)
    requires
        node_at(n, path) is Some,
    ensures
        utf16_len(plain_text(node_at(n, path)->0)) <= utf16_len(plain_text(n)),
    decreases path.len(),
{
    if path.len() > 0 {
        if let DomNode::Element { children, .. } = n {
            let kids = children@;
            let k = path[0] as int;
            lemma_below_is_shorter(kids[k], path.drop_first());
            lemma_texts_next(kids, k);
            lemma_texts_grow(kids, k + 1, kids.len() as int);
            assert(kids.take(kids.len() as int) =~= kids);
        }
    }
}

/// The position of a point: the length of all text before it. A place behind the end of
/// the node counts as its end.
pub open spec fn position_of(n: DomNode, p: PointView) -> Option<int>
    decreases p.path.len(),
{
    if p.path.len() == 0 {
        Some(
            match n {
                DomNode::Text(s) => min_of(p.offset, utf16_len(s@) as int),
                DomNode::Element { children, .. } => utf16_len(
                    plain_texts(children@.take(min_of(p.offset, children@.len() as int))),
                ) as int,
            },
        )
    } else {
        match n {
            DomNode::Text(_) => None,
            DomNode::Element { children, .. } => if p.path[0] < children@.len() {
                match position_of(
                    children@[p.path[0] as int],
                    PointView { path: p.path.drop_first(), offset: p.offset },
                ) {
                    Some(rel) => Some(
                        utf16_len(plain_texts(children@.take(p.path[0] as int))) + rel,
                    ),
                    None => None,
                }
            } else {
                None
            },
        }
    }
}

pub proof fn lemma_position_in_text(n: DomNode, p: PointView)
    requires
        p.offset >= 0,
        position_of(n, p) is Some,
    ensures
        0 <= position_of(n, p)->0 <= utf16_len(plain_text(n)),
    decreases p.path.len(),
{
    match n {
        DomNode::Text(_) => {},
        DomNode::Element { children, .. } => {
            let kids = children@;
            assert(kids.take(kids.len() as int) =~= kids);
            if p.path.len() == 0 {
                lemma_texts_grow(kids, min_of(p.offset, kids.len() as int), kids.len() as int);
            } else {
                let k = p.path[0] as int;
                lemma_position_in_text(
                    kids[k],
                    PointView { path: p.path.drop_first(), offset: p.offset },
                );
                lemma_texts_next(kids, k);
                lemma_texts_grow(kids, k + 1, kids.len() as int);
            }
        },
    }
}

/// The position of a point in a tree. There is none if the path leads nowhere.
pub fn plain_point_utf16(root: &DomNode, path: &[usize], offset: usize) -> (r: Option<u32>)
    requires
        utf16_len(plain_text(*root)) <= u32::MAX,
    ensures
        match r {
            Some(pos) => position_of(*root, (PointView { path: path@, offset: offset as int }))
                == Some(pos as int),
            None => position_of(*root, (PointView { path: path@, offset: offset as int })) is None,
        },
{
    assert(path@.skip(0) =~= path@);
    point_from(root, path, 0, offset)
}

fn point_from(root: &DomNode, path: &[usize], from: usize, offset: usize) -> (r: Option<u32>)
    requires
        from <= path@.len(),
        utf16_len(plain_text(*root)) <= u32::MAX,
    ensures
        ({
            let p = PointView { path: path@.skip(from as int), offset: offset as int };
            match r {
                Some(pos) => position_of(*root, p) == Some(pos as int),
                None => position_of(*root, p) is None,
            }
        }),
    decreases path@.len() - from,
{
    let ghost p = PointView { path: path@.skip(from as int), offset: offset as int };
    match root {
        DomNode::Text(s) => {
            if from < path.len() {
                return None;
            }
            let n: u32 = utf16_len_of(s.as_str());
            Some(if offset <= n as usize {
                offset as u32
            } else {
                n
            })
        },
        DomNode::Element { children, .. } => {
            let ghost kids = children@;
            assert(kids.take(kids.len() as int) =~= kids);
            if from == path.len() {
                let upto: usize = if offset <= children.len() {
                    offset
                } else {
                    children.len()
                };
                proof {
                    lemma_texts_grow(kids, upto as int, kids.len() as int);
                }
                return Some(len_of_first(children, upto));
            }
            let k: usize = path[from];
            assert(p.path[0] == k);
            assert(p.path.drop_first() =~= path@.skip(from + 1));
            if k >= children.len() {
                return None;
            }
            proof {
                lemma_texts_next(kids, k as int);
                lemma_texts_grow(kids, k as int, kids.len() as int);
                lemma_texts_grow(kids, k + 1, kids.len() as int);
            }
            let before: u32 = len_of_first(children, k);
            match point_from(&children[k], path, from + 1, offset) {
                Some(rel) => {
                    proof {
                        lemma_position_in_text(
                            kids[k as int],
                            PointView { path: path@.skip(from + 1), offset: offset as int },
                        );
                    }
                    Some(before + rel)
                },
                None => None,
            }
        },
    }
}

/// The first point in a text node, in order, at which `rem` units of text are passed.
pub open spec fn text_point(n: DomNode, rem: int) -> Option<PointView>
    decreases n,
{
    match n {
        DomNode::Text(s) => if rem <= utf16_len(s@) {
            Some(PointView { path: Seq::empty(), offset: rem })
        } else {
            None
        },
        DomNode::Element { children, .. } => text_point_in(children@, rem),
    }
}

pub open spec fn text_point_in(ns: Seq<DomNode>, rem: int) -> Option<PointView>
    decreases ns,
{
    if ns.len() == 0 {
        None
    } else {
        match text_point_in(ns.drop_last(), rem) {
            Some(p) => Some(p),
            None => match text_point(
                ns.last(),
                rem - utf16_len(plain_texts(ns.drop_last())),
            ) {
                Some(p) => Some(
                    PointView { path: seq![(ns.len() - 1) as usize] + p.path, offset: p.offset },
                ),
                None => None,
            },
        }
    }
}

/// Where the search for a position starts. Positions beyond the signed range are taken
/// for the start.
pub open spec fn search_start(pos: int) -> int {
    if pos <= i32::MAX {
        pos
    } else {
        0
    }
}

/// The point in a text node at a position, if there is one.
pub fn plain_dom_point_for_utf16(root: &DomNode, pos_utf16: u32) -> (r: Option<DomPoint>)
    requires
        utf16_len(plain_text(*root)) <= i32::MAX,
    ensures
        match r {
            Some(p) => text_point(*root, search_start(pos_utf16 as int)) == Some(p@),
            None => text_point(*root, search_start(pos_utf16 as int)) is None,
        },
{
    let start: u32 = if pos_utf16 <= 0x7fff_ffff {
        pos_utf16
    } else {
        0
    };
    point_in_text(root, start)
}

fn point_in_text(root: &DomNode, rem: u32) -> (r: Option<DomPoint>)
    requires
        utf16_len(plain_text(*root)) <= i32::MAX,
    ensures
        match r {
            Some(p) => text_point(*root, rem as int) == Some(p@),
            None => {
                &&& text_point(*root, rem as int) is None
                &&& rem >= utf16_len(plain_text(*root))
            },
        },
    decreases *root,
{
    match root {
        DomNode::Text(s) => {
            let n: u32 = utf16_len_of(s.as_str());
            if rem <= n {
                let path: Vec<usize> = Vec::new();
                assert(path@ =~= Seq::<usize>::empty());
                Some(DomPoint { path, offset: rem as usize })
            } else {
                None
            }
        },
        DomNode::Element { children, .. } => {
            assert(children@.take(children@.len() as int) =~= children@);
            point_in_children(children, rem)
        },
    }
}

fn point_in_children(children: &Vec<DomNode>, rem: u32) -> (r: Option<DomPoint>)
    requires
        utf16_len(plain_texts(children@)) <= i32::MAX,
    ensures
        match r {
            Some(p) => text_point_in(children@, rem as int) == Some(p@),
            None => {
                &&& text_point_in(children@, rem as int) is None
                &&& rem >= utf16_len(plain_texts(children@))
            },
        },
    decreases *children,
{
    let mut left: u32 = rem;
    let mut i: usize = 0;
    while i < children.len()
        invariant
            i <= children@.len(),
            utf16_len(plain_texts(children@)) <= i32::MAX,
            text_point_in(children@.take(i as int), rem as int) is None,
            left == rem - utf16_len(plain_texts(children@.take(i as int))),
        decreases children@.len() - i,
    {
        proof {
            lemma_texts_next(children@, i as int);
            assert(children@.take(children@.len() as int) =~= children@);
            lemma_texts_grow(children@, i + 1, children@.len() as int);
            assert(children@.take(i + 1).drop_last() =~= children@.take(i as int));
        }
        match point_in_text(&children[i], left) {
            Some(p) => {
                let ghost below = p@;
                let mut path: Vec<usize> = p.path;
                path.insert(0, i);
                assert(path@ =~= seq![i] + below.path);
                proof {
                    lemma_text_point_in_prefix(children@, i + 1, rem as int);
                }
                return Some(DomPoint { path, offset: p.offset });
            },
            None => {
                let n: u32 = plain_subtree_utf16_len(&children[i]);
                left = left - n;
            },
        }
        i = i + 1;
    }
    assert(children@.take(children@.len() as int) =~= children@);
    None
}

/// A point found among the first nodes is the one found among all.
proof fn lemma_text_point_in_prefix(ns: Seq<DomNode>, k: int, rem: int)
    requires
        0 <= k <= ns.len(),
        text_point_in(ns.take(k), rem) is Some,
    ensures
        text_point_in(ns, rem) == text_point_in(ns.take(k), rem),
    decreases ns.len() - k,
{
    if k == ns.len() {
        assert(ns.take(k) =~= ns);
    } else {
        assert(ns.take(k + 1).drop_last() =~= ns.take(k));
        lemma_text_point_in_prefix(ns, k + 1, rem);
    }
}

/// The point found for a position is at that position. Every position up to the end of a
/// text that is not empty has a point.
pub proof fn law_point_of_position(n: DomNode, pos: int)
    requires
        0 <= pos,
    ensures
        text_point(n, pos) matches Some(p) ==> position_of(n, p) == Some(pos),
        pos <= utf16_len(plain_text(n)) && plain_text(n).len() > 0 ==> text_point(n, pos) is Some,
        pos > utf16_len(plain_text(n)) ==> text_point(n, pos) is None,
    decreases n, 0int,
{
    match n {
        DomNode::Text(_) => {},
        DomNode::Element { children, .. } => {
            assert(children@.len() == children.len());
            lemma_point_of_position_in(children@, pos);
            let kids = children@;
            if text_point(n, pos) is Some {
                let p = text_point(n, pos)->0;
                let k = p.path[0] as int;
                let below = PointView { path: p.path.drop_first(), offset: p.offset };
                assert(position_of(n, p) == Some(
                    utf16_len(plain_texts(kids.take(k))) + position_of(kids[k], below)->0,
                ));
            }
        },
    }
}

proof fn lemma_point_of_position_in(ns: Seq<DomNode>, pos: int)
    requires
        0 <= pos,
        ns.len() <= usize::MAX,
    ensures
        text_point_in(ns, pos) matches Some(p) ==> {
            &&& p.path.len() > 0
            &&& p.path[0] < ns.len()
            &&& position_of(
                ns[p.path[0] as int],
                PointView { path: p.path.drop_first(), offset: p.offset },
            ) == Some(pos - utf16_len(plain_texts(ns.take(p.path[0] as int))))
        },
        pos <= utf16_len(plain_texts(ns)) && plain_texts(ns).len() > 0 ==> text_point_in(ns, pos) is Some,
        pos > utf16_len(plain_texts(ns)) ==> text_point_in(ns, pos) is None,
    decreases ns, 1int,
{
    if ns.len() > 0 {
        let p = ns.drop_last();
        lemma_point_of_position_in(p, pos);
        lemma_utf16_concat(plain_texts(p), plain_text(ns.last()));
        lemma_len_bounds(plain_texts(p));
        lemma_len_bounds(plain_text(ns.last()));
        match text_point_in(p, pos) {
            Some(q) => {
                assert(p.take(q.path[0] as int) =~= ns.take(q.path[0] as int));
                assert(p[q.path[0] as int] == ns[q.path[0] as int]);
            },
            None => {
                let rel = pos - utf16_len(plain_texts(p));
                if rel >= 0 {
                    law_point_of_position(ns.last(), rel);
                }
                if text_point_in(ns, pos) is Some {
                    let q = text_point_in(ns, pos)->0;
                    let below = text_point(ns.last(), rel)->0;
                    assert(rel >= 0);
                    assert(q.path.drop_first() =~= below.path);
                    assert(ns.take(ns.len() - 1) =~= p);
                }
            },
        }
    }
}

/// What is read of a region goes node by node: a text gives its lines, a place that is only
/// kept for the caret gives nothing, a row with a line end behind it gives that line end
/// where the row is empty, and any other element gives what is in it.
pub proof fn law_region_is_read_node_by_node(
    before: Seq<DomNode>,
    text: String,
    caret_anchor: bool,
    row: Option<RowMark>,
    children: Vec<DomNode>,
)
    ensures
        ({
            let e = DomNode::Element { caret_anchor, row, children };
            let ended = row matches Some(m) && m.hard_break_after;
            let filled = row matches Some(m) && m.len_utf16 matches Some(len) && len > 0;
            &&& atoms_of_nodes(before.push(e)) == atoms_of_nodes(before) + atoms_of_node(e)
            &&& text_of_atoms(atoms_of_node(DomNode::Text(text))) == normalized(text@)
            &&& caret_anchor ==> atoms_of_node(e).len() == 0
            &&& !caret_anchor && ended && !filled ==> atoms_of_node(e) == seq![AtomView::SoftBreak]
            &&& !caret_anchor && ended && filled ==> atoms_of_node(e).len() == 0
            &&& !caret_anchor && !ended ==> atoms_of_node(e) == atoms_of_nodes(children@)
        }),
{
    let e = DomNode::Element { caret_anchor, row, children };
    assert(before.push(e).drop_last() =~= before);
    law_given_text_reads_back(text@);
}

} // verus!
