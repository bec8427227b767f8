//! Tests of the encoder: each protocol-model value maps to its canonical
//! escape byte sequence.

use ansi_escapers::AnsiCreator;
use ansi_escapers::Color;
use ansi_escapers::CursorMove;
use ansi_escapers::DeviceControl;
use ansi_escapers::Erase;
use ansi_escapers::EraseMode;
use ansi_escapers::SgrAttribute;

#[test]
fn test_format_text_bold() {
    let creator = AnsiCreator::new();

    let s = creator.format_text("hi", &[SgrAttribute::Bold]);

    assert!(s.starts_with("\x1B[1m"));
    assert!(s.ends_with("\x1B[0m"));

    assert!(s.contains("hi"));
}

#[test]
fn test_format_text_fg_red() {
    let creator = AnsiCreator::new();

    // Use explicit standard SGR code for red foreground
    let code = creator.fg_standard(31);
    assert_eq!(code, "\x1B[31m");

    let s = format!("{}hi{}", code, creator.sgr_code(SgrAttribute::Reset));
    assert!(s.starts_with("\x1B[31m"));
    assert!(s.ends_with("\x1B[0m"));
    assert!(s.contains("hi"));
}

#[test]
fn test_sgr_reset() {
    let creator = AnsiCreator::new();
    assert_eq!(creator.sgr_code(SgrAttribute::Reset), "\x1B[0m");
}

#[test]
fn test_sgr_bold() {
    let creator = AnsiCreator::new();
    assert_eq!(creator.sgr_code(SgrAttribute::Bold), "\x1B[1m");
}

#[test]
fn test_sgr_faint() {
    let creator = AnsiCreator::new();
    assert_eq!(creator.sgr_code(SgrAttribute::Faint), "\x1B[2m");
}

#[test]
fn test_sgr_italic() {
    let creator = AnsiCreator::new();
    assert_eq!(creator.sgr_code(SgrAttribute::Italic), "\x1B[3m");
}

#[test]
fn test_sgr_underline() {
    let creator = AnsiCreator::new();
    assert_eq!(creator.sgr_code(SgrAttribute::Underline), "\x1B[4m");
}

#[test]
fn test_sgr_blink_slow() {
    let creator = AnsiCreator::new();
    assert_eq!(creator.sgr_code(SgrAttribute::BlinkSlow), "\x1B[5m");
}

#[test]
fn test_sgr_blink_rapid() {
    let creator = AnsiCreator::new();

    assert_eq!(creator.sgr_code(SgrAttribute::BlinkRapid), "\x1B[6m");
}

#[test]
fn test_sgr_reverse() {
    let creator = AnsiCreator::new();
    assert_eq!(creator.sgr_code(SgrAttribute::Reverse), "\x1B[7m");
}

#[test]
fn test_sgr_conceal() {
    let creator = AnsiCreator::new();
    assert_eq!(creator.sgr_code(SgrAttribute::Conceal), "\x1B[8m");
}

#[test]
fn test_sgr_crossed_out() {
    let creator = AnsiCreator::new();
    assert_eq!(creator.sgr_code(SgrAttribute::CrossedOut), "\x1B[9m");
}

#[test]
fn test_sgr_fg_standard_colors() {
    let creator = AnsiCreator::new();
    assert_eq!(creator.fg_standard(30), "\x1B[30m");
    assert_eq!(creator.fg_standard(31), "\x1B[31m");
    assert_eq!(creator.fg_standard(32), "\x1B[32m");
    assert_eq!(creator.fg_standard(33), "\x1B[33m");
    assert_eq!(creator.fg_standard(34), "\x1B[34m");
    assert_eq!(creator.fg_standard(35), "\x1B[35m");
    assert_eq!(creator.fg_standard(36), "\x1B[36m");
    assert_eq!(creator.fg_standard(37), "\x1B[37m");
}

#[test]
fn test_sgr_fg_bright_colors() {
    let creator = AnsiCreator::new();
    assert_eq!(creator.fg_standard(90), "\x1B[90m");
    assert_eq!(creator.fg_standard(91), "\x1B[91m");
    assert_eq!(creator.fg_standard(92), "\x1B[92m");
    assert_eq!(creator.fg_standard(93), "\x1B[93m");
    assert_eq!(creator.fg_standard(94), "\x1B[94m");
    assert_eq!(creator.fg_standard(95), "\x1B[95m");
    assert_eq!(creator.fg_standard(96), "\x1B[96m");
    assert_eq!(creator.fg_standard(97), "\x1B[97m");
}

#[test]
fn test_sgr_bg_standard_colors() {
    let creator = AnsiCreator::new();
    assert_eq!(creator.bg_standard(40), "\x1B[40m");
    assert_eq!(creator.bg_standard(41), "\x1B[41m");
    assert_eq!(creator.bg_standard(42), "\x1B[42m");
    assert_eq!(creator.bg_standard(43), "\x1B[43m");
    assert_eq!(creator.bg_standard(44), "\x1B[44m");
    assert_eq!(creator.bg_standard(45), "\x1B[45m");
    assert_eq!(creator.bg_standard(46), "\x1B[46m");
    assert_eq!(creator.bg_standard(47), "\x1B[47m");
}

#[test]
fn test_sgr_bg_bright_colors() {
    let creator = AnsiCreator::new();
    assert_eq!(creator.bg_standard(100), "\x1B[100m");
    assert_eq!(creator.bg_standard(101), "\x1B[101m");
    assert_eq!(creator.bg_standard(102), "\x1B[102m");
    assert_eq!(creator.bg_standard(103), "\x1B[103m");
    assert_eq!(creator.bg_standard(104), "\x1B[104m");
    assert_eq!(creator.bg_standard(105), "\x1B[105m");
    assert_eq!(creator.bg_standard(106), "\x1B[106m");
    assert_eq!(creator.bg_standard(107), "\x1B[107m");
}

#[test]
fn test_sgr_fg_8bit_color() {
    let creator = AnsiCreator::new();
    assert_eq!(creator.fg_8bit(123), "\x1B[38;5;123m");
}

#[test]
fn test_sgr_fg_24bit_color() {
    let creator = AnsiCreator::new();
    assert_eq!(creator.fg_24bit(10, 20, 30), "\x1B[38;2;10;20;30m");
}

#[test]
fn test_sgr_underline_color_8bit() {
    let creator = AnsiCreator::new();
    assert_eq!(creator.underline_8bit(42), "\x1B[58;5;42m");
}

#[test]
fn test_sgr_underline_color_24bit() {
    let creator = AnsiCreator::new();
    assert_eq!(creator.underline_24bit(1, 2, 3), "\x1B[58;2;1;2;3m");
}

#[test]
fn test_cursor_up() {
    let creator = AnsiCreator::new();
    assert_eq!(creator.cursor_code(CursorMove::Up(3)), "\x1B[3A");
}

#[test]
fn test_cursor_down() {
    let creator = AnsiCreator::new();
    assert_eq!(creator.cursor_code(CursorMove::Down(2)), "\x1B[2B");
}

#[test]
fn test_cursor_forward() {
    let creator = AnsiCreator::new();
    assert_eq!(creator.cursor_code(CursorMove::Forward(5)), "\x1B[5C");
}

#[test]
fn test_cursor_backward() {
    let creator = AnsiCreator::new();
    assert_eq!(creator.cursor_code(CursorMove::Backward(4)), "\x1B[4D");
}

#[test]
fn test_cursor_next_line() {
    let creator = AnsiCreator::new();
    assert_eq!(creator.cursor_code(CursorMove::NextLine(1)), "\x1B[1E");
}

#[test]
fn test_cursor_previous_line() {
    let creator = AnsiCreator::new();
    assert_eq!(creator.cursor_code(CursorMove::PreviousLine(2)), "\x1B[2F");
}

#[test]
fn test_cursor_horizontal_absolute() {
    let creator = AnsiCreator::new();
    assert_eq!(
        creator.cursor_code(CursorMove::HorizontalAbsolute(7)),
        "\x1B[7G"
    );
}

#[test]
fn test_cursor_position() {
    let creator = AnsiCreator::new();
    assert_eq!(
        creator.cursor_code(CursorMove::Position { row: 3, col: 4 }),
        "\x1B[3;4H"
    );
}

#[test]
fn test_erase_display_to_end() {
    let creator = AnsiCreator::new();
    assert_eq!(
        creator.erase_code(Erase::Display(EraseMode::ToEnd)),
        "\x1B[0J"
    );
}

#[test]
fn test_erase_display_to_start() {
    let creator = AnsiCreator::new();
    assert_eq!(
        creator.erase_code(Erase::Display(EraseMode::ToStart)),
        "\x1B[1J"
    );
}

#[test]
fn test_erase_display_all() {
    let creator = AnsiCreator::new();
    assert_eq!(
        creator.erase_code(Erase::Display(EraseMode::All)),
        "\x1B[2J"
    );
}

#[test]
fn test_erase_line_to_end() {
    let creator = AnsiCreator::new();
    assert_eq!(creator.erase_code(Erase::Line(EraseMode::ToEnd)), "\x1B[0K");
}

#[test]
fn test_erase_line_to_start() {
    let creator = AnsiCreator::new();
    assert_eq!(
        creator.erase_code(Erase::Line(EraseMode::ToStart)),
        "\x1B[1K"
    );
}

#[test]
fn test_erase_line_all() {
    let creator = AnsiCreator::new();
    assert_eq!(creator.erase_code(Erase::Line(EraseMode::All)), "\x1B[2K");
}

#[test]
fn test_device_save_cursor() {
    let creator = AnsiCreator::new();
    assert_eq!(creator.device_code(DeviceControl::SaveCursor), "\x1B[s");
}

#[test]
fn test_device_restore_cursor() {
    let creator = AnsiCreator::new();
    assert_eq!(creator.device_code(DeviceControl::RestoreCursor), "\x1B[u");
}

#[test]
fn test_device_hide_cursor() {
    let creator = AnsiCreator::new();
    assert_eq!(creator.device_code(DeviceControl::HideCursor), "\x1B[?25l");
}

#[test]
fn test_device_show_cursor() {
    let creator = AnsiCreator::new();
    assert_eq!(creator.device_code(DeviceControl::ShowCursor), "\x1B[?25h");
}

#[test]
fn test_sgr_bg_8bit_color() {
    let creator = AnsiCreator::new();
    assert_eq!(creator.bg_8bit(200), "\x1B[48;5;200m");
}

#[test]
fn test_sgr_bg_24bit_color() {
    let creator = AnsiCreator::new();
    assert_eq!(creator.bg_24bit(7, 8, 9), "\x1B[48;2;7;8;9m");
}

#[test]
fn test_sgr_named_color_codes() {
    let creator = AnsiCreator::new();
    assert_eq!(
        creator.sgr_code(SgrAttribute::Foreground(Color::Red)),
        "\x1B[31m"
    );
    assert_eq!(
        creator.sgr_code(SgrAttribute::Foreground(Color::BrightCyan)),
        "\x1B[96m"
    );
    assert_eq!(
        creator.sgr_code(SgrAttribute::Background(Color::Yellow)),
        "\x1B[43m"
    );
    assert_eq!(
        creator.sgr_code(SgrAttribute::Background(Color::BrightWhite)),
        "\x1B[107m"
    );
    assert_eq!(
        creator.sgr_code(SgrAttribute::UnderlineColor(Color::AnsiValue(9))),
        "\x1B[58;5;9m"
    );
    // a named underline color has no encoding
    assert_eq!(
        creator.sgr_code(SgrAttribute::UnderlineColor(Color::Red)),
        ""
    );
}

#[test]
fn test_escape_code_dispatch() {
    let creator = AnsiCreator::new();
    assert_eq!(
        creator.escape_code(ansi_escapers::AnsiEscape::Sgr(SgrAttribute::Bold)),
        "\x1B[1m"
    );
    assert_eq!(
        creator.escape_code(ansi_escapers::AnsiEscape::Cursor(CursorMove::Up(12))),
        "\x1B[12A"
    );
    assert_eq!(
        creator.escape_code(ansi_escapers::AnsiEscape::Erase(Erase::Line(EraseMode::All))),
        "\x1B[2K"
    );
    assert_eq!(
        creator.escape_code(ansi_escapers::AnsiEscape::Device(DeviceControl::SaveCursor)),
        "\x1B[s"
    );
}

#[test]
fn test_format_text_exact_composition() {
    let creator = AnsiCreator::new();
    let s = creator.format_text(
        "hi",
        &[SgrAttribute::Bold, SgrAttribute::Foreground(Color::Red)],
    );
    assert_eq!(s, "\x1B[1m\x1B[31mhi\x1B[0m");
}

#[test]
fn test_format_text_empty_attrs_ends_with_reset() {
    let creator = AnsiCreator::new();
    let s = creator.format_text("plain", &[]);
    assert_eq!(s, "plain\x1B[0m");
    assert!(s.ends_with("\x1B[0m"));
}

#[test]
fn test_creator_new_assumes_no_capabilities() {
    let creator = AnsiCreator::new();
    assert!(!creator.env.supports_ansi);
    assert!(!creator.env.supports_truecolor);
    assert!(!creator.env.supports_8bit_color);
}

#[test]
fn test_cursor_zero_count() {
    let creator = AnsiCreator::new();
    assert_eq!(creator.cursor_code(CursorMove::Up(0)), "\x1B[0A");
    assert_eq!(creator.cursor_code(CursorMove::Up(65535)), "\x1B[65535A");
}
