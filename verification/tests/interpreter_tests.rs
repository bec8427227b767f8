//! Tests of the decoder: cleaned text, style spans, and point events
//! recovered from interleaved text and escape sequences.

use ansi_escapers::parse_ansi_annotated;
use ansi_escapers::AnsiEscape;
use ansi_escapers::AnsiSpan;
use ansi_escapers::Color;
use ansi_escapers::CursorMove;
use ansi_escapers::DeviceControl;
use ansi_escapers::Erase;
use ansi_escapers::EraseMode;
use ansi_escapers::SgrAttribute;

#[test]
fn test_parser_sgr_and_cursor() {
    let input = "A\x1B[31mB\x1B[0mC\x1B[2J";
    let result = parse_ansi_annotated(input);
    assert_eq!(result.text, "ABC");
    // The SGR pair around "B" becomes a span; the erase code becomes a point.
    assert!(result
        .spans
        .iter()
        .any(|s| s.codes.contains(&SgrAttribute::Foreground(Color::Red))));
    assert!(result
        .points
        .iter()
        .any(|p| matches!(p.code, AnsiEscape::Erase(_))));
}

#[test]
fn test_parser_basic_colors() {
    let input = "X\x1B[31mY\x1B[0mZ";
    let result = parse_ansi_annotated(input);
    assert_eq!(result.text, "XYZ");
    // The red foreground is active exactly over "Y"; Reset closes the span.
    assert_eq!(
        result.spans,
        vec![AnsiSpan {
            start: 1,
            end: 2,
            codes: vec![SgrAttribute::Foreground(Color::Red)],
        }]
    );
}

#[test]
fn test_parser_8bit_color() {
    let input = "A\x1B[38;5;123mB\x1B[0m";
    let result = parse_ansi_annotated(input);
    assert_eq!(result.text, "AB");
    assert_eq!(
        result.spans,
        vec![AnsiSpan {
            start: 1,
            end: 2,
            codes: vec![SgrAttribute::Foreground(Color::AnsiValue(123))],
        }]
    );
}

#[test]
fn test_parser_24bit_color_fg_bg_underline() {
    let input = "A\x1B[38;2;10;20;30mB\x1B[48;2;40;50;60mC\x1B[58;2;70;80;90mD\x1B[0m";
    let result = parse_ansi_annotated(input);
    assert_eq!(result.text, "ABCD");
    let mut fg = false;
    let mut bg = false;
    let mut ul = false;
    for s in &result.spans {
        for attr in &s.codes {
            match attr {
                SgrAttribute::Foreground(Color::Rgb24 {
                    r: 10,
                    g: 20,
                    b: 30,
                }) => fg = true,
                SgrAttribute::Background(Color::Rgb24 {
                    r: 40,
                    g: 50,
                    b: 60,
                }) => bg = true,
                SgrAttribute::UnderlineColor(Color::Rgb24 {
                    r: 70,
                    g: 80,
                    b: 90,
                }) => ul = true,
                _ => {}
            }
        }
    }
    assert!(fg, "Did not find 24-bit foreground color");
    assert!(bg, "Did not find 24-bit background color");
    assert!(ul, "Did not find 24-bit underline color");
}

#[test]
fn test_parser_cursor_movement() {
    let input = "A\x1B[2BC";
    let result = parse_ansi_annotated(input);
    assert_eq!(result.text, "AC");
    let found = result
        .points
        .iter()
        .any(|p| matches!(p.code, AnsiEscape::Cursor(CursorMove::Down(2))));
    assert!(found, "Did not find CursorMove::Down(2)");
}

#[test]
fn test_parser_erase_display_and_line() {
    let input = "A\x1B[2JB\x1B[1KC";
    let result = parse_ansi_annotated(input);
    assert_eq!(result.text, "ABC");
    let found_display = result
        .points
        .iter()
        .any(|p| matches!(p.code, AnsiEscape::Erase(Erase::Display(EraseMode::All))));
    let found_line = result
        .points
        .iter()
        .any(|p| matches!(p.code, AnsiEscape::Erase(Erase::Line(EraseMode::ToStart))));
    assert!(found_display, "Did not find Erase::Display(EraseMode::All)");
    assert!(found_line, "Did not find Erase::Line(EraseMode::ToStart)");
}

#[test]
fn test_parser_device_control() {
    let input = "A\x1B[sB\x1B[uC\x1B[?25lD\x1B[?25hE";
    let result = parse_ansi_annotated(input);
    assert_eq!(result.text, "ABCDE");
    let mut save = false;
    let mut restore = false;
    let mut hide = false;
    let mut show = false;
    for p in &result.points {
        match p.code {
            AnsiEscape::Device(DeviceControl::SaveCursor) => save = true,
            AnsiEscape::Device(DeviceControl::RestoreCursor) => restore = true,
            AnsiEscape::Device(DeviceControl::HideCursor) => hide = true,
            AnsiEscape::Device(DeviceControl::ShowCursor) => show = true,
            _ => {}
        }
    }
    assert!(save, "Did not find DeviceControl::SaveCursor");
    assert!(restore, "Did not find DeviceControl::RestoreCursor");
    assert!(hide, "Did not find DeviceControl::HideCursor");
    assert!(show, "Did not find DeviceControl::ShowCursor");
}

#[test]
fn test_parser_malformed_sequences() {
    // Malformed or incomplete escape sequences should be ignored/skipped
    let input = "A\x1B[31B\x1B[999ZC\x1B[38;2;1;2mD";
    let result = parse_ansi_annotated(input);
    assert_eq!(result.text, "ACD");
    // Should not panic or produce unknown codes
    for p in &result.points {
        match p.code {
            AnsiEscape::Sgr(_)
            | AnsiEscape::Cursor(_)
            | AnsiEscape::Erase(_)
            | AnsiEscape::Device(_) => {}
        }
    }
}

#[test]
fn test_parser_multiple_sgr_in_one_sequence() {
    // All attributes of one sequence apply at once, in canonical order.
    let input = "A\x1B[1;31;4mB\x1B[0m";
    let result = parse_ansi_annotated(input);
    assert_eq!(result.text, "AB");
    assert_eq!(
        result.spans,
        vec![AnsiSpan {
            start: 1,
            end: 2,
            codes: vec![
                SgrAttribute::Bold,
                SgrAttribute::Underline,
                SgrAttribute::Foreground(Color::Red),
            ],
        }]
    );
}
