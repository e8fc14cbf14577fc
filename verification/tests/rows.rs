use hulunote_app::editor::ordering::OrderRule;
use hulunote_app::editor::placement::compute_reorder_target;
use hulunote_app::editor::rows::{apply_nav_content, backfill_content_request, get_nav_content};
use hulunote_app::models::Nav;

/// The rank of an order number among all order numbers.
fn rank(x: f32) -> i32 {
    let bits = x.to_bits();
    let size = (bits & 0x7fff_ffff) as i32;
    if bits >> 31 == 1 {
        -size
    } else {
        size
    }
}

/// The order number of a rank.
fn number(rank: i32) -> f32 {
    if rank < 0 {
        -f32::from_bits((-rank) as u32)
    } else {
        f32::from_bits(rank as u32)
    }
}

/// The order number that a rule makes.
fn order_of(rule: OrderRule) -> f32 {
    match rule {
        OrderRule::Between(a, b) => (number(a) + number(b)) / 2.0,
        OrderRule::OneAfter(a) => number(a) + 1.0,
        OrderRule::OneBefore(a) => number(a) - 1.0,
        OrderRule::HalfBefore(a) => (number(a) - 1.0 + number(a)) / 2.0,
        OrderRule::HalfAfter(a) => (number(a) + (number(a) + 1.0)) / 2.0,
        OrderRule::First => 0.0,
        OrderRule::AfterFirst => 1.0,
    }
}

#[test]
fn apply_nav_content_updates_matching_nav() {
    let mut navs = vec![
        Nav {
            id: "a".to_string(),
            note_id: "n".to_string(),
            parid: "root".to_string(),
            same_deep_order: rank(1.0),
            content: "old".to_string(),
            is_display: true,
            is_delete: false,
            properties: None,
        },
        Nav {
            id: "b".to_string(),
            note_id: "n".to_string(),
            parid: "root".to_string(),
            same_deep_order: rank(2.0),
            content: "keep".to_string(),
            is_display: true,
            is_delete: false,
            properties: None,
        },
    ];

    assert!(apply_nav_content(&mut navs, "a", "new"));
    assert_eq!(navs[0].content, "new");
    assert_eq!(navs[1].content, "keep");
}

#[test]
fn apply_nav_content_returns_false_when_missing() {
    let mut navs = vec![Nav {
        id: "a".to_string(),
        note_id: "n".to_string(),
        parid: "root".to_string(),
        same_deep_order: rank(1.0),
        content: "old".to_string(),
        is_display: true,
        is_delete: false,
        properties: None,
    }];

    assert!(!apply_nav_content(&mut navs, "missing", "new"));
    assert_eq!(navs[0].content, "old");
}

#[test]
fn get_nav_content_returns_value() {
    let navs = vec![Nav {
        id: "a".to_string(),
        note_id: "n".to_string(),
        parid: "root".to_string(),
        same_deep_order: rank(1.0),
        content: "hello".to_string(),
        is_display: true,
        is_delete: false,
        properties: None,
    }];

    assert_eq!(get_nav_content(&navs, "a"), Some("hello".to_string()));
    assert_eq!(get_nav_content(&navs, "missing"), None);
}

#[test]
fn backfill_content_request_empty_skips() {
    assert!(backfill_content_request("n", "id", "").is_none());
    assert!(backfill_content_request("n", "id", "   ").is_none());
}

#[test]
fn backfill_content_request_builds_req() {
    let req = backfill_content_request("n1", "id1", "hello")
        .expect("should build request for non-empty content");
    assert_eq!(req.note_id, "n1");
    assert_eq!(req.id.as_deref(), Some("id1"));
    assert_eq!(req.content.as_deref(), Some("hello"));
    assert!(req.parid.is_none());
    assert!(req.order.is_none());
}

#[test]
fn compute_reorder_target_moves_across_parent_before_target() {
    let all = vec![
        Nav {
            id: "d".to_string(),
            note_id: "n".to_string(),
            parid: "p1".to_string(),
            same_deep_order: rank(10.0),
            content: "".to_string(),
            is_display: true,
            is_delete: false,
            properties: None,
        },
        Nav {
            id: "t".to_string(),
            note_id: "n".to_string(),
            parid: "p2".to_string(),
            same_deep_order: rank(5.0),
            content: "".to_string(),
            is_display: true,
            is_delete: false,
            properties: None,
        },
        Nav {
            id: "u".to_string(),
            note_id: "n".to_string(),
            parid: "p2".to_string(),
            same_deep_order: rank(9.0),
            content: "".to_string(),
            is_display: true,
            is_delete: false,
            properties: None,
        },
    ];

    let target =
        compute_reorder_target(&all, "d", "t", false).expect("should compute reorder target");
    let (parid, order) = (target.parid, order_of(target.rule));
    assert_eq!(parid, "p2");
    assert!(order < 5.0);
}

#[test]
fn compute_reorder_target_moves_within_parent_after_target_between() {
    let all = vec![
        Nav {
            id: "a".to_string(),
            note_id: "n".to_string(),
            parid: "p".to_string(),
            same_deep_order: rank(1.0),
            content: "".to_string(),
            is_display: true,
            is_delete: false,
            properties: None,
        },
        Nav {
            id: "d".to_string(),
            note_id: "n".to_string(),
            parid: "p".to_string(),
            same_deep_order: rank(2.0),
            content: "".to_string(),
            is_display: true,
            is_delete: false,
            properties: None,
        },
        Nav {
            id: "t".to_string(),
            note_id: "n".to_string(),
            parid: "p".to_string(),
            same_deep_order: rank(3.0),
            content: "".to_string(),
            is_display: true,
            is_delete: false,
            properties: None,
        },
        Nav {
            id: "b".to_string(),
            note_id: "n".to_string(),
            parid: "p".to_string(),
            same_deep_order: rank(10.0),
            content: "".to_string(),
            is_display: true,
            is_delete: false,
            properties: None,
        },
    ];

    let target =
        compute_reorder_target(&all, "d", "t", true).expect("should compute reorder target");
    let (parid, order) = (target.parid, order_of(target.rule));
    assert_eq!(parid, "p");
    assert!(order > 3.0 && order < 10.0);
}
