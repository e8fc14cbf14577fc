use hulunote_app::editor::layout::{
    build_visual_lines, is_breakable, SoftWrap, VisualLine, WrapStep,
};

/// How wide a row may be.
#[derive(Clone, Copy)]
struct WrapConfig {
    max_width_px: f64,
}

fn char_width_px(ch: char) -> f64 {
    if ch == '\t' {
        return 16.0;
    }
    if ch.is_ascii() {
        if ch.is_whitespace() {
            4.5
        } else {
            7.2
        }
    } else {
        13.5
    }
}

fn soft_wrap_breaks(line: &str, cfg: WrapConfig) -> Vec<usize> {
    if line.is_empty() || cfg.max_width_px <= 1.0 {
        return vec![];
    }
    let mut wrap = SoftWrap::new();
    let mut width = 0.0;
    let mut width_at_break = 0.0;
    for ch in line.chars() {
        let w = char_width_px(ch);
        let next = width + w;
        width = match wrap.step(ch, next > cfg.max_width_px) {
            WrapStep::Grow => next,
            WrapStep::BreakAtLast => next - width_at_break,
            WrapStep::CutBefore => w,
        };
        if wrap.last_breakable == Some(wrap.at) {
            width_at_break = width;
        }
    }
    wrap.breaks
}

fn lines_of(text: &str, cfg: WrapConfig) -> Vec<VisualLine> {
    let cuts: Vec<Vec<usize>> = text.split('\n').map(|l| soft_wrap_breaks(l, cfg)).collect();
    build_visual_lines(text, &cuts)
}

#[test]
fn wraps_ascii_line() {
    let s = "abcdef ghi";
    let breaks = soft_wrap_breaks(s, WrapConfig { max_width_px: 28.0 });
    assert!(!breaks.is_empty());
}

#[test]
fn wraps_cjk_line() {
    let s = "你好世界你好世界";
    let breaks = soft_wrap_breaks(s, WrapConfig { max_width_px: 32.0 });
    assert!(!breaks.is_empty());
}

#[test]
fn no_wrap_for_short_line() {
    let s = "abc";
    let breaks = soft_wrap_breaks(
        s,
        WrapConfig {
            max_width_px: 400.0,
        },
    );
    assert!(breaks.is_empty());
}

#[test]
fn visual_lines_keep_semantic_positions() {
    let lines = lines_of("ab\ncd", WrapConfig { max_width_px: 12.0 });
    assert!(!lines.is_empty());
    assert_eq!(lines[0].start_utf16, 0);
    assert!(lines.iter().any(|l| l.start_utf16 >= 3));
}

#[test]
fn wrap_prefers_the_last_breakable_place() {
    let mut wrap = SoftWrap::new();
    assert_eq!(wrap.step('a', false), WrapStep::Grow);
    assert_eq!(wrap.step(' ', false), WrapStep::Grow);
    assert_eq!(wrap.step('b', false), WrapStep::Grow);
    assert_eq!(wrap.step('c', true), WrapStep::BreakAtLast);
    assert_eq!(wrap.breaks, vec![2]);
    assert_eq!(wrap.chunk_start, 2);
    assert_eq!(wrap.step('d', true), WrapStep::CutBefore);
    assert_eq!(wrap.breaks, vec![2, 4]);
}

#[test]
fn wrap_never_leaves_an_empty_row() {
    let mut wrap = SoftWrap::new();
    assert_eq!(wrap.step('a', true), WrapStep::Grow);
    assert_eq!(wrap.step('b', true), WrapStep::CutBefore);
    assert_eq!(wrap.breaks, vec![1]);
}

#[test]
fn rows_show_the_whole_text() {
    let text = "ab cd\n\nx😀y";
    let lines = build_visual_lines(text, &[vec![3], vec![], vec![5]]);
    let row = |text: &str, start, len, hard| VisualLine {
        text: text.to_string(),
        start_utf16: start,
        len_utf16: len,
        hard_break_after: hard,
    };
    assert_eq!(
        lines,
        vec![
            row("ab ", 0, 3, false),
            row("cd", 3, 2, true),
            row("", 6, 0, true),
            row("x😀", 7, 3, false),
            row("y", 10, 1, false),
        ]
    );
}

#[test]
fn cuts_that_do_not_move_on_count_for_nothing() {
    let lines = build_visual_lines("abc", &[vec![0, 2, 1, 2, 9]]);
    let texts: Vec<&str> = lines.iter().map(|l| l.text.as_str()).collect();
    assert_eq!(texts, vec!["ab", "c", ""]);
}

#[test]
fn breakable_characters() {
    for c in [' ', '\t', '\u{3000}', '-', '/', '_', '.', ',', ';', ':'] {
        assert!(is_breakable(c));
    }
    for c in ['a', '0', '(', '爱', '\u{200B}'] {
        assert!(!is_breakable(c));
    }
}
