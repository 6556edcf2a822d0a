//! End-to-end layout scenarios. All dimensions are in 26.6 units:
//! 64 units per point.

use typesetter::assemble::assemble_lines;
use typesetter::color::{LayoutError, RgbColor};
use typesetter::emit::{emit_draws, DrawCmd};
use typesetter::layout::layout;
use typesetter::metrics::{BoxMetrics, TokenBox};
use typesetter::region::{Direction, JustifyMode, Region};
use typesetter::segment::{segment, Token, TokenKind};

const PT: i64 = 64;

fn chars(s: &str) -> Vec<char> {
    s.chars().collect()
}

fn region(width_pt: i64, height_pt: i64, lineskip_pt: i64) -> Region {
    Region {
        x: 0,
        y: 0,
        width: width_pt * PT,
        height: height_pt * PT,
        lineskip: lineskip_pt * PT,
        language: chars("en"),
        direction: Direction::Ltr,
        color: chars("#198964"),
    }
}

fn metrics(width: i64) -> BoxMetrics {
    BoxMetrics { width, height: 0, x_offset: 0, y_offset: 0 }
}

/// Measures every token at 10 pt, separators at 5 pt, as the fixed test
/// font does.
fn measure(tokens: Vec<Token>) -> Vec<Option<TokenBox>> {
    tokens
        .into_iter()
        .map(|t| {
            let w = if t.kind == TokenKind::Space { 5 * PT } else { 10 * PT };
            Some(TokenBox { token: t, metrics: metrics(w) })
        })
        .collect()
}

fn draw_text(d: &DrawCmd) -> String {
    d.text.iter().collect()
}

/// Exact x position check: `x_units + x_num / x_den == want_pt` points.
fn assert_x(d: &DrawCmd, want_64ths: i64) {
    assert_eq!((d.x_units * d.x_den + d.x_num), want_64ths * d.x_den);
}

#[test]
fn trivial_ltr_fit() {
    let boxes = measure(segment(&chars("ab cd")));
    let (color, draws) = layout(&boxes, &region(100, 50, 20), 5 * PT, JustifyMode::Ragged)
        .unwrap();
    assert_eq!(color, RgbColor { red: 0x19, green: 0x89, blue: 0x64 });
    assert_eq!(draws.len(), 2);
    assert_eq!(draw_text(&draws[0]), "ab");
    assert_x(&draws[0], 0);
    assert_eq!(draws[0].y, 0);
    assert_eq!(draw_text(&draws[1]), "cd");
    assert_x(&draws[1], 15 * PT);
    assert_eq!(draws[1].y, 0);
}

#[test]
fn wrap_at_the_right_edge() {
    let boxes = measure(segment(&chars("ab cd ef")));
    let (_, draws) = layout(&boxes, &region(25, 50, 20), 5 * PT, JustifyMode::Ragged).unwrap();
    assert_eq!(draws.len(), 3);
    assert_eq!(draw_text(&draws[0]), "ab");
    assert_x(&draws[0], 0);
    assert_eq!(draws[0].y, 0);
    assert_eq!(draw_text(&draws[1]), "cd");
    assert_x(&draws[1], 15 * PT);
    assert_eq!(draws[1].y, 0);
    assert_eq!(draw_text(&draws[2]), "ef");
    assert_x(&draws[2], 0);
    assert_eq!(draws[2].y, 20 * PT);
}

#[test]
fn vertical_overflow_suppresses_later_lines() {
    let boxes = measure(segment(&chars("ab cd ef")));
    let reg = region(25, 15, 20);
    let (lines, overflowed) = assemble_lines(&boxes, &reg, 5 * PT);
    assert!(overflowed);
    assert_eq!(lines.len(), 1);
    let draws = emit_draws(&lines, &reg, 5 * PT, JustifyMode::Ragged, overflowed);
    assert_eq!(draws.len(), 2);
    assert_eq!(draw_text(&draws[0]), "ab");
    assert_eq!(draw_text(&draws[1]), "cd");
    assert_eq!(draws[1].y, 0);
}

#[test]
fn empty_input_emits_nothing() {
    let boxes = measure(segment(&chars("")));
    let (_, draws) = layout(&boxes, &region(100, 50, 20), 5 * PT, JustifyMode::Ragged).unwrap();
    assert_eq!(draws.len(), 0);
}

#[test]
fn all_whitespace_emits_nothing() {
    let boxes = measure(segment(&chars("  \t \n ")));
    let (_, draws) = layout(&boxes, &region(100, 50, 20), 5 * PT, JustifyMode::Ragged).unwrap();
    assert_eq!(draws.len(), 0);
}

#[test]
fn zero_width_region_isolates_every_token() {
    // the orchestrator rejects a zero dimension, so this drives the
    // assembler and emitter directly: every word overflows its own line
    let boxes = measure(segment(&chars("ab cd")));
    let mut reg = region(100, 200, 20);
    reg.width = 0;
    let (lines, overflowed) = assemble_lines(&boxes, &reg, 5 * PT);
    assert!(!overflowed);
    let draws = emit_draws(&lines, &reg, 5 * PT, JustifyMode::Ragged, overflowed);
    assert_eq!(draws.len(), 2);
    assert_eq!(draw_text(&draws[0]), "ab");
    assert_x(&draws[0], 0);
    assert_eq!(draws[0].y, 20 * PT);
    assert_eq!(draw_text(&draws[1]), "cd");
    assert_x(&draws[1], 0);
    assert_eq!(draws[1].y, 60 * PT);
}

#[test]
fn oversized_token_is_emitted_once_and_overflows() {
    let tok = Token { text: chars("abcdef"), kind: TokenKind::Word };
    let boxes = vec![Some(TokenBox { token: tok, metrics: metrics(20 * PT) })];
    let (_, draws) = layout(&boxes, &region(10, 50, 20), 5 * PT, JustifyMode::Ragged).unwrap();
    assert_eq!(draws.len(), 1);
    assert_eq!(draw_text(&draws[0]), "abcdef");
    assert_x(&draws[0], 0);
    assert_eq!(draws[0].y, 20 * PT);
    assert!(draws[0].width > 10 * PT);
}

#[test]
fn unragged_justification_distributes_slack() {
    // width 47 pt wraps "ab cd ef gh" after the third word; the first
    // line has slack 7 pt over two gaps: per-gap 5 + 3.5 pt
    let boxes = measure(segment(&chars("ab cd ef gh")));
    let (_, draws) = layout(&boxes, &region(47, 50, 20), 5 * PT, JustifyMode::Unragged).unwrap();
    assert_eq!(draws.len(), 4);
    assert_eq!(draw_text(&draws[0]), "ab");
    assert_x(&draws[0], 0);
    assert_eq!(draws[0].x_den, 2);
    // 10 pt + one widened gap of 8.5 pt = 18.5 pt = 1184 units
    assert_eq!(draws[1].x_units * draws[1].x_den + draws[1].x_num, 2 * 1184);
    // 18.5 + 10 + 8.5 = 37 pt
    assert_eq!(draws[2].x_units * draws[2].x_den + draws[2].x_num, 2 * 37 * PT);
    // the line is flush: right edge of "ef" is exactly 47 pt
    assert_eq!(
        (draws[2].x_units + draws[2].width) * draws[2].x_den + draws[2].x_num,
        2 * 47 * PT
    );
    // the last line renders ragged at the left edge
    assert_eq!(draw_text(&draws[3]), "gh");
    assert_x(&draws[3], 0);
    assert_eq!(draws[3].x_den, 1);
    assert_eq!(draws[3].y, 20 * PT);
}

#[test]
fn justified_gaps_match_the_slack_formula() {
    // hand-built line [ab SP cd SP ef] with slack 15 pt over two gaps:
    // per-gap 5 + 7.5 = 12.5 pt, draws at 0, 22.5 and 45 pt
    let reg = region(55, 50, 20);
    let line_boxes: Vec<TokenBox> = vec![
        TokenBox { token: Token { text: chars("ab"), kind: TokenKind::Word }, metrics: metrics(10 * PT) },
        TokenBox { token: Token { text: chars(" "), kind: TokenKind::Space }, metrics: metrics(5 * PT) },
        TokenBox { token: Token { text: chars("cd"), kind: TokenKind::Word }, metrics: metrics(10 * PT) },
        TokenBox { token: Token { text: chars(" "), kind: TokenKind::Space }, metrics: metrics(5 * PT) },
        TokenBox { token: Token { text: chars("ef"), kind: TokenKind::Word }, metrics: metrics(10 * PT) },
    ];
    let gh = vec![
        TokenBox { token: Token { text: chars("gh"), kind: TokenKind::Word }, metrics: metrics(10 * PT) },
    ];
    let lines = vec![
        typesetter::assemble::Line { boxes: line_boxes, slack: 15 * PT },
        typesetter::assemble::Line { boxes: gh, slack: 45 * PT },
    ];
    let draws = emit_draws(&lines, &reg, 5 * PT, JustifyMode::Unragged, false);
    assert_eq!(draws.len(), 4);
    assert_x(&draws[0], 0);
    assert_eq!(draws[1].x_den, 2);
    // 10 + 12.5 = 22.5 pt
    assert_eq!(draws[1].x_units * 2 + draws[1].x_num, 45 * PT);
    // 22.5 + 10 + 12.5 = 45 pt
    assert_eq!(draws[2].x_units * 2 + draws[2].x_num, 2 * 45 * PT);
    // flush right edge at 55 pt
    assert_eq!((draws[2].x_units + draws[2].width) * 2 + draws[2].x_num, 2 * 55 * PT);
    assert_x(&draws[3], 0);
    assert_eq!(draws[3].y, 20 * PT);
}

#[test]
fn unragged_line_with_one_word_renders_ragged() {
    // "ab" alone on line 1 (width 12 pt), so no gap widening is possible
    let boxes = measure(segment(&chars("ab cd")));
    let (_, draws) = layout(&boxes, &region(12, 50, 20), 5 * PT, JustifyMode::Unragged).unwrap();
    assert_eq!(draws.len(), 2);
    assert_eq!(draws[0].x_den, 1);
    assert_x(&draws[0], 0);
    assert_x(&draws[1], 0);
}

#[test]
fn absent_boxes_are_skipped() {
    let tokens = segment(&chars("ab cd ef"));
    let mut boxes = measure(tokens);
    boxes[2] = None;  // "cd" was never shaped
    let (_, draws) = layout(&boxes, &region(100, 50, 20), 5 * PT, JustifyMode::Ragged).unwrap();
    assert_eq!(draws.len(), 2);
    assert_eq!(draw_text(&draws[0]), "ab");
    assert_eq!(draw_text(&draws[1]), "ef");
}

#[test]
fn non_positive_dimension_is_rejected() {
    let boxes = measure(segment(&chars("ab")));
    let mut reg = region(100, 50, 20);
    reg.width = 0;
    assert_eq!(
        layout(&boxes, &reg, 5 * PT, JustifyMode::Ragged).unwrap_err(),
        LayoutError::InvalidRegion
    );
    let mut reg2 = region(100, 50, 20);
    reg2.height = 0;
    assert_eq!(
        layout(&boxes, &reg2, 5 * PT, JustifyMode::Ragged).unwrap_err(),
        LayoutError::InvalidRegion
    );
}

#[test]
fn malformed_color_is_rejected_after_region_check() {
    let boxes = measure(segment(&chars("ab")));
    let mut reg = region(100, 50, 20);
    reg.color = chars("#19896");
    assert_eq!(
        layout(&boxes, &reg, 5 * PT, JustifyMode::Ragged).unwrap_err(),
        LayoutError::MalformedColor
    );
}

#[test]
fn overflow_justifies_every_emitted_line() {
    // width 26 pt keeps [ab SP cd] with slack 1 pt; height 15 pt cuts
    // the block off, and an overflowed block justifies even its last
    // emitted line: "cd" lands flush at 26 pt
    let boxes = measure(segment(&chars("ab cd ef")));
    let reg = region(26, 15, 20);
    let (lines, overflowed) = assemble_lines(&boxes, &reg, 5 * PT);
    assert!(overflowed);
    let draws = emit_draws(&lines, &reg, 5 * PT, JustifyMode::Unragged, overflowed);
    assert_eq!(draws.len(), 2);
    assert_eq!(draws[1].x_den, 1);
    // 10 pt + (5 + 1/1) pt = 16 pt
    assert_x(&draws[1], 16 * PT);
    // flush right edge at 26 pt
    assert_eq!(
        (draws[1].x_units + draws[1].width) * draws[1].x_den + draws[1].x_num,
        26 * PT * draws[1].x_den
    );
}
