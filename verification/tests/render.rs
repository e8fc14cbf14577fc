use hulunote_app::editor::offset_map::{raw_to_visible_utf16, visible_to_raw_utf16, OffsetMapSeg};
use hulunote_app::editor::render::{
    escape_html, render_basic_markdown_inline_for_editing_mapped, render_basic_markdown_inline_html,
};

#[test]
fn basic_inline_markdown_renders() {
    let html = render_basic_markdown_inline_html("a **bold** *it* `code`");
    assert_eq!(
        html,
        "a <strong>bold</strong> <em>it</em> <code class=\"rounded bg-muted px-1 py-0.5 font-mono text-[0.9em]\">code</code>"
    );
}

#[test]
fn escapes_html_in_plain_and_marked_text() {
    let html = render_basic_markdown_inline_html("<x> **<b>** `&`");
    assert_eq!(
        html,
        "&lt;x&gt; <strong>&lt;b&gt;</strong> <code class=\"rounded bg-muted px-1 py-0.5 font-mono text-[0.9em]\">&amp;</code>"
    );
}

#[test]
fn keeps_unclosed_markers_as_plain_text() {
    let html = render_basic_markdown_inline_html("**a *b `c");
    assert_eq!(html, "**a *b `c");
}

#[test]
fn renders_newline_as_br_in_read_mode_html() {
    let html = render_basic_markdown_inline_html("a\nb\n");
    assert_eq!(html, "a<br>b<br>&nbsp;");
}

#[test]
fn escape_html_escapes_basic_chars() {
    let escaped = escape_html("<>&\"'");
    assert_eq!(escaped, "&lt;&gt;&amp;&quot;&#39;");
}

#[test]
fn editing_render_hides_markers_when_caret_outside_token_range() {
    let html = render_basic_markdown_inline_for_editing_mapped("a **xx** b", Some(0)).html;
    assert_eq!(html, "a <strong>xx</strong> b");
    assert!(!html.contains("data-md-marker"));
}

#[test]
fn editing_render_shows_raw_markers_when_caret_inside_token_range() {
    let html = render_basic_markdown_inline_for_editing_mapped("**xx**", Some(3)).html;
    assert_eq!(html, "**xx**");
}

#[test]
fn editing_render_shows_raw_markers_when_caret_at_token_range_boundary() {
    let left = render_basic_markdown_inline_for_editing_mapped("**xx**", Some(0)).html;
    let right = render_basic_markdown_inline_for_editing_mapped("**xx**", Some(6)).html;
    assert_eq!(left, "**xx**");
    assert_eq!(right, "**xx**");
}

#[test]
fn mapped_render_produces_non_identity_segment_when_markers_hidden() {
    let rendered = render_basic_markdown_inline_for_editing_mapped("a **xx** b", Some(0));
    assert_eq!(rendered.visible_utf16_len, 6);
    assert_eq!(
        rendered.map,
        vec![
            OffsetMapSeg {
                vis_start: 0,
                raw_start: 0,
                len: 2,
            },
            OffsetMapSeg {
                vis_start: 2,
                raw_start: 4,
                len: 2,
            },
            OffsetMapSeg {
                vis_start: 4,
                raw_start: 8,
                len: 2,
            },
        ]
    );
}

#[test]
fn mapped_render_is_identity_when_token_is_active() {
    let rendered = render_basic_markdown_inline_for_editing_mapped("**xx**", Some(1));
    assert_eq!(rendered.visible_utf16_len, 6);
    assert_eq!(
        rendered.map,
        vec![OffsetMapSeg {
            vis_start: 0,
            raw_start: 0,
            len: 6,
        }]
    );
}

#[test]
fn visible_to_raw_uses_marker_adjusted_offsets() {
    let rendered = render_basic_markdown_inline_for_editing_mapped("a **xx** b", Some(0));
    assert_eq!(visible_to_raw_utf16(&rendered.map, 0, 10), 0);
    assert_eq!(visible_to_raw_utf16(&rendered.map, 2, 10), 4);
    assert_eq!(visible_to_raw_utf16(&rendered.map, 3, 10), 5);
    assert_eq!(visible_to_raw_utf16(&rendered.map, 6, 10), 10);
}

#[test]
fn raw_to_visible_collapses_hidden_marker_ranges() {
    let rendered = render_basic_markdown_inline_for_editing_mapped("a **xx** b", Some(0));
    assert_eq!(
        raw_to_visible_utf16(&rendered.map, 0, rendered.visible_utf16_len),
        0
    );
    assert_eq!(
        raw_to_visible_utf16(&rendered.map, 2, rendered.visible_utf16_len),
        2
    );
    assert_eq!(
        raw_to_visible_utf16(&rendered.map, 3, rendered.visible_utf16_len),
        2
    );
    assert_eq!(
        raw_to_visible_utf16(&rendered.map, 4, rendered.visible_utf16_len),
        2
    );
    assert_eq!(
        raw_to_visible_utf16(&rendered.map, 8, rendered.visible_utf16_len),
        4
    );
}

#[test]
fn mapped_render_handles_adjacent_formatters() {
    let rendered = render_basic_markdown_inline_for_editing_mapped("**a***b*", Some(99));
    assert_eq!(rendered.html, "<strong>a</strong><em>b</em>");
    assert_eq!(rendered.visible_utf16_len, 2);
    assert_eq!(visible_to_raw_utf16(&rendered.map, 0, 8), 2);
    assert_eq!(visible_to_raw_utf16(&rendered.map, 1, 8), 6);
    assert_eq!(visible_to_raw_utf16(&rendered.map, 2, 8), 7);
}

#[test]
fn editing_render_keeps_newlines_and_escapes_plain_text() {
    let rendered = render_basic_markdown_inline_for_editing_mapped("a<\n&", None);
    assert_eq!(rendered.html, "a&lt;\n&amp;");
    assert_eq!(rendered.visible_utf16_len, 4);
}

#[test]
fn empty_markers_stay_plain() {
    assert_eq!(render_basic_markdown_inline_html("``"), "``");
    assert_eq!(render_basic_markdown_inline_html("****"), "****");
    assert_eq!(render_basic_markdown_inline_html("***a*"), "**<em>a</em>");
    let rendered = render_basic_markdown_inline_for_editing_mapped("``", None);
    assert_eq!(rendered.html, "``");
}

#[test]
fn markers_around_wide_characters_count_in_utf16_units() {
    let rendered = render_basic_markdown_inline_for_editing_mapped("*😀* x", None);
    assert_eq!(rendered.html, "<em>😀</em> x");
    assert_eq!(rendered.visible_utf16_len, 4);
    assert_eq!(
        rendered.map,
        vec![
            OffsetMapSeg { vis_start: 0, raw_start: 1, len: 2 },
            OffsetMapSeg { vis_start: 2, raw_start: 4, len: 2 },
        ]
    );
    for pos in 0..=4u32 {
        let raw = visible_to_raw_utf16(&rendered.map, pos, 6);
        assert_eq!(raw_to_visible_utf16(&rendered.map, raw, rendered.visible_utf16_len), pos);
    }
}

#[test]
fn offsets_without_a_map_are_only_clamped() {
    assert_eq!(visible_to_raw_utf16(&[], 3, 9), 3);
    assert_eq!(visible_to_raw_utf16(&[], 30, 9), 9);
    assert_eq!(raw_to_visible_utf16(&[], 3, 9), 3);
    assert_eq!(raw_to_visible_utf16(&[], 30, 9), 9);
}

#[test]
fn escape_html_works_piece_by_piece() {
    let whole = escape_html("a<b&c");
    assert_eq!(whole, format!("{}{}", escape_html("a<"), escape_html("b&c")));
    assert!(!whole.contains('<'));
}
