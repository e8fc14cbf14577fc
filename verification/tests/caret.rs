use hulunote_app::editor::caret::{
    caret_in_row, ce_current_line_info, ce_resolve_dom_point_for_utf16, ce_selection_utf16,
    collect_rows, SelectionSource,
};
use hulunote_app::editor::dom::{
    ce_snapshot, ce_text, plain_dom_point_for_utf16, plain_point_utf16, plain_subtree_utf16_len,
    DomNode, DomPoint, RowMark,
};
use hulunote_app::editor::edit::EditorAtom;
use hulunote_app::editor::layout::{build_visual_lines, VisualLine};

fn text(s: &str) -> DomNode {
    DomNode::Text(s.to_string())
}

fn element(children: Vec<DomNode>) -> DomNode {
    DomNode::Element {
        caret_anchor: false,
        row: None,
        children,
    }
}

fn row(index: u32, line: &VisualLine) -> DomNode {
    let span = if line.text.is_empty() {
        vec![]
    } else {
        vec![text(&line.text)]
    };
    DomNode::Element {
        caret_anchor: false,
        row: Some(RowMark {
            index: Some(index),
            start_utf16: Some(line.start_utf16),
            len_utf16: Some(line.len_utf16),
            hard_break_after: line.hard_break_after,
        }),
        children: vec![element(span)],
    }
}

/// A region that shows a text in rows.
fn region(s: &str, cuts: &[Vec<usize>]) -> DomNode {
    let lines = build_visual_lines(s, cuts);
    element(
        lines
            .iter()
            .enumerate()
            .map(|(i, l)| row(i as u32, l))
            .collect(),
    )
}

fn at(path: &[usize], offset: usize) -> DomPoint {
    DomPoint {
        path: path.to_vec(),
        offset,
    }
}

fn caret(p: DomPoint) -> SelectionSource {
    SelectionSource::Points {
        start: at(&p.path, p.offset),
        end: Some(p),
    }
}

#[test]
fn caret_reads_back_wherever_it_is_put() {
    let s = "ab cd\n\nx😀y\nlast";
    let root = region(s, &[vec![3], vec![], vec![5], vec![]]);
    let len = s.encode_utf16().count() as u32;
    for pos in 0..=len {
        let p = ce_resolve_dom_point_for_utf16(&root, len, pos).unwrap();
        assert_eq!(ce_selection_utf16(&root, len, &caret(p)), (pos, pos, len));
    }
    let behind = ce_resolve_dom_point_for_utf16(&root, len, 99).unwrap();
    assert_eq!(ce_selection_utf16(&root, len, &caret(behind)).0, len);
}

#[test]
fn caret_goes_into_the_text_of_its_row() {
    let root = region("ab\ncd", &[vec![], vec![]]);
    assert_eq!(
        ce_resolve_dom_point_for_utf16(&root, 5, 1),
        Some(at(&[0, 0, 0], 1))
    );
    assert_eq!(
        ce_resolve_dom_point_for_utf16(&root, 5, 3),
        Some(at(&[1, 0, 0], 0))
    );
    let empty = region("", &[vec![]]);
    assert_eq!(
        ce_resolve_dom_point_for_utf16(&empty, 0, 0),
        Some(at(&[0], 1))
    );
    assert_eq!(
        ce_resolve_dom_point_for_utf16(&element(vec![]), 0, 0),
        Some(at(&[], 0))
    );
}

#[test]
fn points_between_rows_are_told_by_the_marks() {
    let root = region("ab\ncd", &[vec![], vec![]]);
    let pos = |offset| ce_selection_utf16(&root, 5, &caret(at(&[], offset))).0;
    assert_eq!((pos(0), pos(1), pos(2), pos(9)), (0, 3, 5, 5));
}

#[test]
fn unreadable_selections_have_a_place() {
    let root = region("ab", &[vec![]]);
    assert_eq!(
        ce_selection_utf16(&root, 2, &SelectionSource::NoWindow),
        (0, 0, 2)
    );
    assert_eq!(
        ce_selection_utf16(&root, 2, &SelectionSource::Elsewhere),
        (2, 2, 2)
    );
    let half = SelectionSource::Points {
        start: at(&[0, 0, 0], 1),
        end: None,
    };
    assert_eq!(ce_selection_utf16(&root, 2, &half), (1, 1, 2));
    let unmarked = element(vec![DomNode::Element {
        caret_anchor: false,
        row: Some(RowMark {
            index: None,
            start_utf16: None,
            len_utf16: Some(2),
            hard_break_after: false,
        }),
        children: vec![text("ab")],
    }]);
    assert_eq!(
        ce_selection_utf16(&unmarked, 2, &caret(at(&[0, 0], 1))),
        (2, 2, 2)
    );
    assert_eq!(ce_resolve_dom_point_for_utf16(&unmarked, 2, 1), None);
}

#[test]
fn line_of_the_caret() {
    let root = region("ab cd\nx", &[vec![3], vec![]]);
    assert_eq!(collect_rows(&root).len(), 3);
    assert_eq!(ce_current_line_info(&root, "ab cd\nx", None, 0), (0, 0));
    assert_eq!(
        ce_current_line_info(&root, "ab cd\nx", Some(&[1, 0, 0]), 4),
        (1, 3)
    );
    assert_eq!(ce_current_line_info(&root, "ab cd\nx", Some(&[]), 4), (0, 3));
    let plain = element(vec![text("a\nb")]);
    assert_eq!(ce_current_line_info(&plain, "a\nb", Some(&[0]), 2), (1, 2));
}

#[test]
fn plain_points_count_the_text_before_them() {
    let root = element(vec![
        text("a爱"),
        element(vec![text("😀"), text("x")]),
        text("y"),
    ]);
    assert_eq!(plain_subtree_utf16_len(&root), 6);
    assert_eq!(plain_point_utf16(&root, &[1, 1], 1), Some(5));
    assert_eq!(plain_point_utf16(&root, &[1], 1), Some(4));
    assert_eq!(plain_point_utf16(&root, &[1], 7), Some(5));
    assert_eq!(plain_point_utf16(&root, &[0], 7), Some(2));
    assert_eq!(plain_point_utf16(&root, &[3], 0), None);
    assert_eq!(plain_point_utf16(&root, &[0, 0], 0), None);
    assert_eq!(plain_dom_point_for_utf16(&root, 0), Some(at(&[0], 0)));
    assert_eq!(plain_dom_point_for_utf16(&root, 2), Some(at(&[0], 2)));
    assert_eq!(plain_dom_point_for_utf16(&root, 3), Some(at(&[1, 0], 1)));
    assert_eq!(plain_dom_point_for_utf16(&root, 6), Some(at(&[2], 1)));
    assert_eq!(plain_dom_point_for_utf16(&root, 7), None);
    assert_eq!(plain_dom_point_for_utf16(&root, u32::MAX), Some(at(&[0], 0)));
    assert_eq!(plain_dom_point_for_utf16(&element(vec![]), 0), None);
}

#[test]
fn given_text_reads_back() {
    let root = element(vec![text("other")]);
    let snap = ce_snapshot(&root, Some("a\r\n\nb\r"));
    assert_eq!(
        snap.atoms,
        vec![
            EditorAtom::Text("a".to_string()),
            EditorAtom::SoftBreak,
            EditorAtom::SoftBreak,
            EditorAtom::Text("b".to_string()),
            EditorAtom::SoftBreak,
        ]
    );
    assert_eq!(snap.persisted_text, "a\n\nb\n");
    assert_eq!(ce_text(&root, Some("a\r\n")), "a\r\n");
    assert_eq!(ce_text(&root, None), "other");
}

#[test]
fn tree_is_read_without_anchors() {
    let anchor = DomNode::Element {
        caret_anchor: true,
        row: None,
        children: vec![text("!")],
    };
    let hard = |len| DomNode::Element {
        caret_anchor: false,
        row: Some(RowMark {
            index: None,
            start_utf16: None,
            len_utf16: len,
            hard_break_after: true,
        }),
        children: vec![text("row")],
    };
    let root = element(vec![
        text("x"),
        anchor,
        hard(None),
        hard(Some(0)),
        hard(Some(3)),
        text("y\nz"),
    ]);
    assert_eq!(ce_snapshot(&root, None).persisted_text, "x\n\ny\nz");
}

#[test]
fn caret_in_a_row_counts_from_its_start() {
    let lines = build_visual_lines("ab\ncd", &[vec![], vec![]]);
    assert_eq!(caret_in_row(&lines[0], Some(2)), Some(2));
    assert_eq!(caret_in_row(&lines[1], Some(2)), None);
    assert_eq!(caret_in_row(&lines[1], Some(3)), Some(0));
    assert_eq!(caret_in_row(&lines[1], Some(6)), None);
    assert_eq!(caret_in_row(&lines[1], None), None);
}
