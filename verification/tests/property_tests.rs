//! Scenario and property checks on concrete values: round trips between the
//! encoder and the decoder, the Reset suffix of formatted text, robustness
//! against garbage input, and the span-set invariants.

use ansi_escapers::parse_ansi_annotated;
use ansi_escapers::AnsiCreator;
use ansi_escapers::AnsiEnvironment;
use ansi_escapers::AnsiEscape;
use ansi_escapers::AnsiSpan;
use ansi_escapers::Color;
use ansi_escapers::CursorMove;
use ansi_escapers::DeviceControl;
use ansi_escapers::Erase;
use ansi_escapers::EraseMode;
use ansi_escapers::SgrAttribute;

/// Encoding a non-SGR escape and decoding it yields exactly one point
/// carrying the same value at offset zero.
fn check_point_round_trip(e: AnsiEscape) {
    let creator = AnsiCreator::new();
    let encoded = creator.escape_code(e);
    let result = parse_ansi_annotated(&encoded);
    assert_eq!(result.text, "");
    assert!(result.spans.is_empty());
    assert_eq!(result.points.len(), 1);
    assert_eq!(result.points[0].pos, 0);
    assert_eq!(result.points[0].code, e);
}

/// Encoding an SGR attribute, a character, and Reset yields one span over
/// that character carrying exactly the attribute.
fn check_sgr_round_trip(a: SgrAttribute) {
    let creator = AnsiCreator::new();
    let input = format!(
        "{}x{}",
        creator.sgr_code(a),
        creator.sgr_code(SgrAttribute::Reset)
    );
    let result = parse_ansi_annotated(&input);
    assert_eq!(result.text, "x");
    assert!(result.points.is_empty());
    assert_eq!(
        result.spans,
        vec![AnsiSpan {
            start: 0,
            end: 1,
            codes: vec![a],
        }]
    );
}

#[test]
fn test_round_trip_cursor_moves() {
    check_point_round_trip(AnsiEscape::Cursor(CursorMove::Up(3)));
    check_point_round_trip(AnsiEscape::Cursor(CursorMove::Down(0)));
    check_point_round_trip(AnsiEscape::Cursor(CursorMove::Forward(65535)));
    check_point_round_trip(AnsiEscape::Cursor(CursorMove::Backward(1)));
    check_point_round_trip(AnsiEscape::Cursor(CursorMove::NextLine(7)));
    check_point_round_trip(AnsiEscape::Cursor(CursorMove::PreviousLine(9)));
    check_point_round_trip(AnsiEscape::Cursor(CursorMove::HorizontalAbsolute(80)));
    check_point_round_trip(AnsiEscape::Cursor(CursorMove::Position { row: 3, col: 4 }));
    check_point_round_trip(AnsiEscape::Cursor(CursorMove::Position { row: 0, col: 0 }));
}

#[test]
fn test_round_trip_erase_and_device() {
    check_point_round_trip(AnsiEscape::Erase(Erase::Display(EraseMode::ToEnd)));
    check_point_round_trip(AnsiEscape::Erase(Erase::Display(EraseMode::ToStart)));
    check_point_round_trip(AnsiEscape::Erase(Erase::Display(EraseMode::All)));
    check_point_round_trip(AnsiEscape::Erase(Erase::Line(EraseMode::ToEnd)));
    check_point_round_trip(AnsiEscape::Erase(Erase::Line(EraseMode::ToStart)));
    check_point_round_trip(AnsiEscape::Erase(Erase::Line(EraseMode::All)));
    check_point_round_trip(AnsiEscape::Device(DeviceControl::SaveCursor));
    check_point_round_trip(AnsiEscape::Device(DeviceControl::RestoreCursor));
    check_point_round_trip(AnsiEscape::Device(DeviceControl::HideCursor));
    check_point_round_trip(AnsiEscape::Device(DeviceControl::ShowCursor));
}

#[test]
fn test_round_trip_sgr_attributes() {
    check_sgr_round_trip(SgrAttribute::Bold);
    check_sgr_round_trip(SgrAttribute::Faint);
    check_sgr_round_trip(SgrAttribute::Italic);
    check_sgr_round_trip(SgrAttribute::Underline);
    check_sgr_round_trip(SgrAttribute::BlinkSlow);
    check_sgr_round_trip(SgrAttribute::BlinkRapid);
    check_sgr_round_trip(SgrAttribute::Reverse);
    check_sgr_round_trip(SgrAttribute::Conceal);
    check_sgr_round_trip(SgrAttribute::CrossedOut);
    check_sgr_round_trip(SgrAttribute::Foreground(Color::Black));
    check_sgr_round_trip(SgrAttribute::Foreground(Color::White));
    check_sgr_round_trip(SgrAttribute::Foreground(Color::BrightBlack));
    check_sgr_round_trip(SgrAttribute::Foreground(Color::BrightWhite));
    check_sgr_round_trip(SgrAttribute::Foreground(Color::AnsiValue(0)));
    check_sgr_round_trip(SgrAttribute::Foreground(Color::AnsiValue(255)));
    check_sgr_round_trip(SgrAttribute::Foreground(Color::Rgb24 { r: 1, g: 2, b: 3 }));
    check_sgr_round_trip(SgrAttribute::Background(Color::Magenta));
    check_sgr_round_trip(SgrAttribute::Background(Color::BrightCyan));
    check_sgr_round_trip(SgrAttribute::Background(Color::AnsiValue(17)));
    check_sgr_round_trip(SgrAttribute::Background(Color::Rgb24 {
        r: 255,
        g: 0,
        b: 128,
    }));
    check_sgr_round_trip(SgrAttribute::UnderlineColor(Color::AnsiValue(42)));
    check_sgr_round_trip(SgrAttribute::UnderlineColor(Color::Rgb24 {
        r: 9,
        g: 8,
        b: 7,
    }));
}

#[test]
fn test_scenario_red_span() {
    let result = parse_ansi_annotated("A\x1B[31mB\x1B[0mC");
    assert_eq!(result.text, "ABC");
    assert_eq!(
        result.spans,
        vec![AnsiSpan {
            start: 1,
            end: 2,
            codes: vec![SgrAttribute::Foreground(Color::Red)],
        }]
    );
    assert!(result.points.is_empty());
}

#[test]
fn test_scenario_cursor_point() {
    let result = parse_ansi_annotated("A\x1B[2BC");
    assert_eq!(result.text, "AC");
    assert!(result.spans.is_empty());
    assert_eq!(result.points.len(), 1);
    assert_eq!(result.points[0].pos, 1);
    assert_eq!(
        result.points[0].code,
        AnsiEscape::Cursor(CursorMove::Down(2))
    );
}

#[test]
fn test_scenario_malformed_pieces() {
    // `31B` is a valid cursor move; `999Z` and the truncated extended color
    // are stripped without producing anything.
    let result = parse_ansi_annotated("A\x1B[31B\x1B[999ZC\x1B[38;2;1;2mD");
    assert_eq!(result.text, "ACD");
    assert!(result.spans.is_empty());
    assert_eq!(result.points.len(), 1);
    assert_eq!(result.points[0].pos, 1);
    assert_eq!(
        result.points[0].code,
        AnsiEscape::Cursor(CursorMove::Down(31))
    );
}

#[test]
fn test_scenario_combined_attributes_close_at_reset() {
    let result = parse_ansi_annotated("A\x1B[1;31;4mB\x1B[0m");
    assert_eq!(result.text, "AB");
    assert_eq!(result.spans.len(), 1);
    let span = &result.spans[0];
    assert_eq!((span.start, span.end), (1, 2));
    assert_eq!(
        span.codes,
        vec![
            SgrAttribute::Bold,
            SgrAttribute::Underline,
            SgrAttribute::Foreground(Color::Red),
        ]
    );
}

#[test]
fn test_unterminated_sequence_discards_tail() {
    let result = parse_ansi_annotated("AB\x1B[31");
    assert_eq!(result.text, "AB");
    assert!(result.spans.is_empty());
    assert!(result.points.is_empty());
}

#[test]
fn test_lone_escape_is_kept() {
    // An ESC not followed by `[` is ordinary text.
    let result = parse_ansi_annotated("A\x1BB");
    assert_eq!(result.text, "A\x1BB");
    assert!(result.spans.is_empty());
    assert!(result.points.is_empty());
}

#[test]
fn test_garbage_never_panics_and_stays_well_formed() {
    let inputs = [
        "",
        "\x1B",
        "\x1B[",
        "\x1B[;;;",
        "\x1B[38;5m",
        "\x1B[38;5;m",
        "\x1B[38;2;1;2;999m",
        "\x1B[38;7;1m",
        "\x1B[¡ÿm",
        "x\x1B[12345678901234567890Ay",
        "\x1B[31m\x1B[31m\x1B[31m",
        "a\x1B[0m\x1B[0mb",
    ];
    for input in inputs {
        let result = parse_ansi_annotated(input);
        for s in &result.spans {
            assert!(s.start < s.end);
            assert!(s.end <= result.text.len());
            assert!(!s.codes.is_empty());
        }
        for w in result.spans.windows(2) {
            assert!(w[0].end <= w[1].start);
        }
        for w in result.points.windows(2) {
            assert!(w[0].pos <= w[1].pos);
        }
    }
}

#[test]
fn test_slot_overwrite_keeps_one_color() {
    // Setting a second foreground color evicts the first: one slot, one color.
    let result = parse_ansi_annotated("\x1B[31m\x1B[34mAB\x1B[0m");
    assert_eq!(result.text, "AB");
    assert_eq!(
        result.spans,
        vec![AnsiSpan {
            start: 0,
            end: 2,
            codes: vec![SgrAttribute::Foreground(Color::Blue)],
        }]
    );
}

#[test]
fn test_reasserted_attribute_is_noop() {
    let result = parse_ansi_annotated("\x1B[1mA\x1B[1mB\x1B[0m");
    assert_eq!(result.text, "AB");
    assert_eq!(
        result.spans,
        vec![AnsiSpan {
            start: 0,
            end: 2,
            codes: vec![SgrAttribute::Bold],
        }]
    );
}

#[test]
fn test_zero_width_span_is_dropped() {
    let result = parse_ansi_annotated("\x1B[31m\x1B[0mA");
    assert_eq!(result.text, "A");
    assert!(result.spans.is_empty());
}

#[test]
fn test_point_ties_keep_encounter_order() {
    let result = parse_ansi_annotated("A\x1B[s\x1B[uB");
    assert_eq!(result.text, "AB");
    assert_eq!(result.points.len(), 2);
    assert_eq!(result.points[0].pos, 1);
    assert_eq!(
        result.points[0].code,
        AnsiEscape::Device(DeviceControl::SaveCursor)
    );
    assert_eq!(result.points[1].pos, 1);
    assert_eq!(
        result.points[1].code,
        AnsiEscape::Device(DeviceControl::RestoreCursor)
    );
}

#[test]
fn test_offsets_are_byte_offsets() {
    // Two-byte characters advance offsets by two.
    let result = parse_ansi_annotated("é\x1B[31mδ\x1B[0m");
    assert_eq!(result.text, "éδ");
    assert_eq!(
        result.spans,
        vec![AnsiSpan {
            start: 2,
            end: 4,
            codes: vec![SgrAttribute::Foreground(Color::Red)],
        }]
    );
}

#[test]
fn test_leading_plus_parses_like_std() {
    // The standard integer parsers accept a leading plus sign.
    let result = parse_ansi_annotated("\x1B[38;5;+07mA\x1B[0m");
    assert_eq!(result.text, "A");
    assert_eq!(
        result.spans,
        vec![AnsiSpan {
            start: 0,
            end: 1,
            codes: vec![SgrAttribute::Foreground(Color::AnsiValue(7))],
        }]
    );
}

#[test]
fn test_overflowing_palette_index_is_dropped() {
    let result = parse_ansi_annotated("\x1B[38;5;256mA");
    assert_eq!(result.text, "A");
    assert!(result.spans.is_empty());
}

#[test]
fn test_padded_code_names_nothing() {
    // The direct attribute codes are matched exactly: `031` is not `31`.
    let result = parse_ansi_annotated("\x1B[031mA");
    assert_eq!(result.text, "A");
    assert!(result.spans.is_empty());
}

#[test]
fn test_cursor_defaults_to_one() {
    let result = parse_ansi_annotated("\x1B[Ax\x1B[;5H");
    assert_eq!(result.text, "x");
    assert_eq!(result.points.len(), 2);
    assert_eq!(result.points[0].code, AnsiEscape::Cursor(CursorMove::Up(1)));
    assert_eq!(
        result.points[1].code,
        AnsiEscape::Cursor(CursorMove::Position { row: 1, col: 5 })
    );
}

#[test]
fn test_environment_capabilities() {
    let env = AnsiEnvironment::from_terminal_info(true, "xterm-256color", "");
    assert!(env.supports_ansi);
    assert!(env.supports_8bit_color);
    assert!(!env.supports_truecolor);

    let env = AnsiEnvironment::from_terminal_info(true, "dumb", "");
    assert!(!env.supports_ansi);

    let env = AnsiEnvironment::from_terminal_info(true, "", "");
    assert!(!env.supports_ansi);

    let env = AnsiEnvironment::from_terminal_info(false, "xterm", "");
    assert!(!env.supports_ansi);

    let env = AnsiEnvironment::from_terminal_info(true, "xterm", "truecolor");
    assert!(env.supports_ansi);
    assert!(env.supports_truecolor);
    assert!(env.supports_8bit_color);

    let env = AnsiEnvironment::from_terminal_info(true, "xterm-24bit", "");
    assert!(env.supports_truecolor);
}
