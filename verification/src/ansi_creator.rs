//! The encoder: total, stateless functions mapping each protocol-model value
//! to its canonical escape character sequence, together with the environment
//! capability record the encoder's callers may consult.
//!
//! Every public function's contract states the exact character sequence it
//! returns, through the `spec_*` functions below; those same functions are
//! what the decoder's round-trip law is proved against.

use vstd::prelude::*;
use vstd::string::StrSliceExecFns;
use vstd::string::StringExecFns;

use crate::ansi_types::AnsiEscape;
use crate::ansi_types::Color;
use crate::ansi_types::CursorMove;
use crate::ansi_types::DeviceControl;
use crate::ansi_types::Erase;
use crate::ansi_types::EraseMode;
use crate::ansi_types::SgrAttribute;
use crate::decimal::spec_dec;
use crate::text::contains_seq;
use crate::text::push_char;
use crate::text::push_dec;
use crate::text::str_contains;
use crate::text::str_eq;

verus! {

/// The two-character Control Sequence Introducer: ESC `[`.
pub open spec fn csi_prefix() -> Seq<char> {
    seq!['\x1b', '[']
}

/// A complete CSI sequence: introducer, parameter characters, final byte.
pub open spec fn csi_code(body: Seq<char>, fin: char) -> Seq<char> {
    csi_prefix() + body + seq![fin]
}

/// The SGR sequence carrying a single numeric code: `ESC [ n m`.
pub open spec fn sgr_of_num(n: int) -> Seq<char> {
    csi_code(spec_dec(n), 'm')
}

/// Parameter body of an 8-bit palette color: `intro;5;v`.
pub open spec fn palette_body(intro: int, v: u8) -> Seq<char> {
    spec_dec(intro) + seq![';'] + spec_dec(5) + seq![';'] + spec_dec(v as int)
}

/// Parameter body of a 24-bit color: `intro;2;r;g;b`.
pub open spec fn rgb_body(intro: int, r: u8, g: u8, b: u8) -> Seq<char> {
    spec_dec(intro) + seq![';'] + spec_dec(2) + seq![';'] + spec_dec(r as int) + seq![';']
        + spec_dec(g as int) + seq![';'] + spec_dec(b as int)
}

/// The numeric SGR code of a named foreground color (30-37, 90-97).
pub open spec fn fg_color_num(c: Color) -> int {
    match c {
        Color::Black => 30,
        Color::Red => 31,
        Color::Green => 32,
        Color::Yellow => 33,
        Color::Blue => 34,
        Color::Magenta => 35,
        Color::Cyan => 36,
        Color::White => 37,
        Color::BrightBlack => 90,
        Color::BrightRed => 91,
        Color::BrightGreen => 92,
        Color::BrightYellow => 93,
        Color::BrightBlue => 94,
        Color::BrightMagenta => 95,
        Color::BrightCyan => 96,
        Color::BrightWhite => 97,
        Color::AnsiValue(_) => 0,
        Color::Rgb24 { .. } => 0,
    }
}

/// The canonical encoding of a foreground color.
pub open spec fn spec_fg_code(c: Color) -> Seq<char> {
    match c {
        Color::AnsiValue(v) => csi_code(palette_body(38, v), 'm'),
        Color::Rgb24 { r, g, b } => csi_code(rgb_body(38, r, g, b), 'm'),
        _ => sgr_of_num(fg_color_num(c)),
    }
}

/// The canonical encoding of a background color (named colors use 40-47,
/// 100-107: the foreground code plus ten).
pub open spec fn spec_bg_code(c: Color) -> Seq<char> {
    match c {
        Color::AnsiValue(v) => csi_code(palette_body(48, v), 'm'),
        Color::Rgb24 { r, g, b } => csi_code(rgb_body(48, r, g, b), 'm'),
        _ => sgr_of_num(fg_color_num(c) + 10),
    }
}

/// The canonical encoding of an underline color.  Only the extended forms
/// exist; a named color has no underline-color sequence and encodes to the
/// empty string.
pub open spec fn spec_underline_color_code(c: Color) -> Seq<char> {
    match c {
        Color::AnsiValue(v) => csi_code(palette_body(58, v), 'm'),
        Color::Rgb24 { r, g, b } => csi_code(rgb_body(58, r, g, b), 'm'),
        _ => Seq::<char>::empty(),
    }
}

/// The canonical encoding of any SGR attribute.
pub open spec fn spec_sgr_code(a: SgrAttribute) -> Seq<char> {
    match a {
        SgrAttribute::Reset => sgr_of_num(0),
        SgrAttribute::Bold => sgr_of_num(1),
        SgrAttribute::Faint => sgr_of_num(2),
        SgrAttribute::Italic => sgr_of_num(3),
        SgrAttribute::Underline => sgr_of_num(4),
        SgrAttribute::BlinkSlow => sgr_of_num(5),
        SgrAttribute::BlinkRapid => sgr_of_num(6),
        SgrAttribute::Reverse => sgr_of_num(7),
        SgrAttribute::Conceal => sgr_of_num(8),
        SgrAttribute::CrossedOut => sgr_of_num(9),
        SgrAttribute::Foreground(c) => spec_fg_code(c),
        SgrAttribute::Background(c) => spec_bg_code(c),
        SgrAttribute::UnderlineColor(c) => spec_underline_color_code(c),
    }
}

/// The canonical encoding of a cursor movement.
pub open spec fn spec_cursor_code(m: CursorMove) -> Seq<char> {
    match m {
        CursorMove::Up(n) => csi_code(spec_dec(n as int), 'A'),
        CursorMove::Down(n) => csi_code(spec_dec(n as int), 'B'),
        CursorMove::Forward(n) => csi_code(spec_dec(n as int), 'C'),
        CursorMove::Backward(n) => csi_code(spec_dec(n as int), 'D'),
        CursorMove::NextLine(n) => csi_code(spec_dec(n as int), 'E'),
        CursorMove::PreviousLine(n) => csi_code(spec_dec(n as int), 'F'),
        CursorMove::HorizontalAbsolute(n) => csi_code(spec_dec(n as int), 'G'),
        CursorMove::Position { row, col } => csi_code(
            spec_dec(row as int) + seq![';'] + spec_dec(col as int),
            'H',
        ),
    }
}

/// The numeric code of an erase mode.
pub open spec fn spec_erase_mode_num(m: EraseMode) -> int {
    match m {
        EraseMode::ToEnd => 0,
        EraseMode::ToStart => 1,
        EraseMode::All => 2,
    }
}

/// The canonical encoding of an erase command.
pub open spec fn spec_erase_code(e: Erase) -> Seq<char> {
    match e {
        Erase::Display(m) => csi_code(spec_dec(spec_erase_mode_num(m)), 'J'),
        Erase::Line(m) => csi_code(spec_dec(spec_erase_mode_num(m)), 'K'),
    }
}

/// The canonical encoding of a device control command.
pub open spec fn spec_device_code(d: DeviceControl) -> Seq<char> {
    match d {
        DeviceControl::SaveCursor => csi_code(Seq::<char>::empty(), 's'),
        DeviceControl::RestoreCursor => csi_code(Seq::<char>::empty(), 'u'),
        DeviceControl::HideCursor => csi_code(seq!['?', '2', '5'], 'l'),
        DeviceControl::ShowCursor => csi_code(seq!['?', '2', '5'], 'h'),
    }
}

/// The canonical encoding of any escape code.
pub open spec fn spec_escape_code(e: AnsiEscape) -> Seq<char> {
    match e {
        AnsiEscape::Sgr(a) => spec_sgr_code(a),
        AnsiEscape::Cursor(m) => spec_cursor_code(m),
        AnsiEscape::Erase(er) => spec_erase_code(er),
        AnsiEscape::Device(d) => spec_device_code(d),
    }
}

/// The concatenation of the encodings of a list of SGR attributes.
pub open spec fn codes_concat(attrs: Seq<SgrAttribute>) -> Seq<char>
    decreases attrs.len(),
{
    if attrs.len() == 0 {
        Seq::<char>::empty()
    } else {
        spec_sgr_code(attrs[0]) + codes_concat(attrs.drop_first())
    }
}

/// What [`AnsiCreator::format_text`] returns: every attribute's code, the
/// text itself, then unconditionally the Reset code.
pub open spec fn spec_format_text(text: Seq<char>, attrs: Seq<SgrAttribute>) -> Seq<char> {
    codes_concat(attrs) + text + spec_sgr_code(SgrAttribute::Reset)
}

proof fn lemma_codes_concat_snoc(attrs: Seq<SgrAttribute>, a: SgrAttribute)
    ensures
        codes_concat(attrs.push(a)) == codes_concat(attrs) + spec_sgr_code(a),
    decreases attrs.len(),
{
    let p = attrs.push(a);
    if attrs.len() == 0 {
        assert(p[0] == a);
        assert(p.drop_first() =~= Seq::<SgrAttribute>::empty());
        assert(codes_concat(Seq::<SgrAttribute>::empty()) == Seq::<char>::empty());
        assert(codes_concat(p) == spec_sgr_code(a) + codes_concat(p.drop_first()));
        assert(codes_concat(p) =~= codes_concat(attrs) + spec_sgr_code(a));
    } else {
        assert(p[0] == attrs[0]);
        assert(p.drop_first() =~= attrs.drop_first().push(a));
        lemma_codes_concat_snoc(attrs.drop_first(), a);
        assert(codes_concat(p) == spec_sgr_code(attrs[0]) + codes_concat(
            attrs.drop_first().push(a),
        ));
        assert(codes_concat(p) =~= codes_concat(attrs) + spec_sgr_code(a));
    }
}

/// Describes the ANSI capabilities of a terminal environment.
///
/// The encoder itself never consults these flags — every escape code is
/// produced as asked — but callers may use them to decide what to ask for.
/// The record is computed from plain terminal facts by
/// [`AnsiEnvironment::from_terminal_info`]; gathering those facts (whether
/// standard output is a tty, the `TERM` and `COLORTERM` variables) is the
/// host program's business, not this library's.
pub struct AnsiEnvironment {
    /// True if ANSI escape codes are supported.
    pub supports_ansi: bool,
    /// True if 24-bit (truecolor) is supported.
    pub supports_truecolor: bool,
    /// True if 8-bit (256 color) is supported.
    pub supports_8bit_color: bool,
}

impl AnsiEnvironment {
    /// The capability record implied by the given terminal facts: `is_tty`
    /// says whether output goes to a terminal, `term` and `colorterm` are the
    /// values of the `TERM` and `COLORTERM` environment variables (empty when
    /// unset).
    pub fn from_terminal_info(is_tty: bool, term: &str, colorterm: &str) -> (r: AnsiEnvironment)
        ensures
            r.supports_ansi == (is_tty && term@ != "dumb"@ && term@.len() > 0),
            r.supports_truecolor == (colorterm@ == "truecolor"@ || colorterm@ == "24bit"@
                || contains_seq(term@, "truecolor"@) || contains_seq(term@, "24bit"@)),
            r.supports_8bit_color == (contains_seq(term@, "256color"@) || r.supports_truecolor),
    {
        let supports_ansi = is_tty && !str_eq(term, "dumb") && !term.is_empty();
        let supports_truecolor = str_eq(colorterm, "truecolor") || str_eq(colorterm, "24bit")
            || str_contains(term, "truecolor") || str_contains(term, "24bit");
        let supports_8bit_color = str_contains(term, "256color") || supports_truecolor;
        AnsiEnvironment { supports_ansi, supports_truecolor, supports_8bit_color }
    }

    /// The record that assumes no capability at all.
    pub fn none() -> (r: AnsiEnvironment)
        ensures
            !r.supports_ansi,
            !r.supports_truecolor,
            !r.supports_8bit_color,
    {
        AnsiEnvironment { supports_ansi: false, supports_truecolor: false, supports_8bit_color: false }
    }
}

/// API for producing ANSI escape codes for formatting, color, cursor
/// movement, and more.
pub struct AnsiCreator {
    /// The environment capabilities the caller wants to record.  The encoder
    /// never reads them: output never depends on the environment.
    pub env: AnsiEnvironment,
}

impl AnsiCreator {
    /// Create a new `AnsiCreator` that assumes no capabilities.  A host that
    /// has queried its terminal can store the result in `env`.
    pub fn new() -> (r: Self)
        ensures
            !r.env.supports_ansi,
            !r.env.supports_truecolor,
            !r.env.supports_8bit_color,
    {
        Self { env: AnsiEnvironment::none() }
    }

    /// Format text with the given SGR (Select Graphic Rendition) attributes:
    /// each attribute's code, the raw text, then unconditionally the Reset
    /// code — even when `attrs` is empty — so that composed output never
    /// leaks style into following content.
    pub fn format_text(&self, text: &str, attrs: &[SgrAttribute]) -> (r: String)
        ensures
            r@ == spec_format_text(text@, attrs@),
            r@.len() >= 4,
            r@.subrange(r@.len() - 4, r@.len() as int) == spec_sgr_code(SgrAttribute::Reset),
    {
        let mut s = String::new();
        let mut i: usize = 0;
        while i < attrs.len()
            invariant
                0 <= i <= attrs@.len(),
                s@ == codes_concat(attrs@.take(i as int)),
            decreases attrs@.len() - i,
        {
            let code = self.sgr_code(attrs[i]);
            s.append(code.as_str());
            proof {
                assert(attrs@.take(i + 1) =~= attrs@.take(i as int).push(attrs@[i as int]));
                lemma_codes_concat_snoc(attrs@.take(i as int), attrs@[i as int]);
            }
            i += 1;
        }
        proof {
            assert(attrs@.take(i as int) =~= attrs@);
        }
        s.append(text);
        let reset = self.sgr_code(SgrAttribute::Reset);
        s.append(reset.as_str());
        proof {
            assert(s@ =~= spec_format_text(text@, attrs@));
            assert(spec_sgr_code(SgrAttribute::Reset).len() == 4);
            assert(s@.subrange(s@.len() - 4, s@.len() as int) =~= spec_sgr_code(
                SgrAttribute::Reset,
            ));
        }
        s
    }

    /// Produce the ANSI escape code for a single SGR attribute.
    pub fn sgr_code(&self, attr: SgrAttribute) -> (r: String)
        ensures
            r@ == spec_sgr_code(attr),
    {
        match attr {
            SgrAttribute::Reset => self.simple_sgr(0),
            SgrAttribute::Bold => self.simple_sgr(1),
            SgrAttribute::Faint => self.simple_sgr(2),
            SgrAttribute::Italic => self.simple_sgr(3),
            SgrAttribute::Underline => self.simple_sgr(4),
            SgrAttribute::BlinkSlow => self.simple_sgr(5),
            SgrAttribute::BlinkRapid => self.simple_sgr(6),
            SgrAttribute::Reverse => self.simple_sgr(7),
            SgrAttribute::Conceal => self.simple_sgr(8),
            SgrAttribute::CrossedOut => self.simple_sgr(9),
            SgrAttribute::Foreground(color) => self.fg_code(color),
            SgrAttribute::Background(color) => self.bg_code(color),
            SgrAttribute::UnderlineColor(color) => self.underline_color_code_explicit(color),
        }
    }

    /// A CSI sequence with one numeric parameter and final byte `m`.
    fn simple_sgr(&self, n: u8) -> (r: String)
        ensures
            r@ == sgr_of_num(n as int),
    {
        let mut s = begin_csi();
        push_dec(&mut s, n as u16);
        push_char(&mut s, 'm');
        proof {
            assert(s@ =~= sgr_of_num(n as int));
        }
        s
    }

    /// Produce the ANSI escape code for a standard foreground color
    /// (SGR 30-37, 90-97); `code` is used as given.
    pub fn fg_standard(&self, code: u8) -> (r: String)
        ensures
            r@ == sgr_of_num(code as int),
    {
        self.simple_sgr(code)
    }

    /// Internal: the foreground color code, in its most idiomatic form.
    fn fg_code(&self, color: Color) -> (r: String)
        ensures
            r@ == spec_fg_code(color),
    {
        match color {
            Color::Black => self.fg_standard(30),
            Color::Red => self.fg_standard(31),
            Color::Green => self.fg_standard(32),
            Color::Yellow => self.fg_standard(33),
            Color::Blue => self.fg_standard(34),
            Color::Magenta => self.fg_standard(35),
            Color::Cyan => self.fg_standard(36),
            Color::White => self.fg_standard(37),
            Color::BrightBlack => self.fg_standard(90),
            Color::BrightRed => self.fg_standard(91),
            Color::BrightGreen => self.fg_standard(92),
            Color::BrightYellow => self.fg_standard(93),
            Color::BrightBlue => self.fg_standard(94),
            Color::BrightMagenta => self.fg_standard(95),
            Color::BrightCyan => self.fg_standard(96),
            Color::BrightWhite => self.fg_standard(97),
            Color::AnsiValue(idx) => self.fg_8bit(idx),
            Color::Rgb24 { r, g, b } => self.fg_24bit(r, g, b),
        }
    }

    /// Internal: the background color code, in its most idiomatic form.
    fn bg_code(&self, color: Color) -> (r: String)
        ensures
            r@ == spec_bg_code(color),
    {
        match color {
            Color::Black => self.bg_standard(40),
            Color::Red => self.bg_standard(41),
            Color::Green => self.bg_standard(42),
            Color::Yellow => self.bg_standard(43),
            Color::Blue => self.bg_standard(44),
            Color::Magenta => self.bg_standard(45),
            Color::Cyan => self.bg_standard(46),
            Color::White => self.bg_standard(47),
            Color::BrightBlack => self.bg_standard(100),
            Color::BrightRed => self.bg_standard(101),
            Color::BrightGreen => self.bg_standard(102),
            Color::BrightYellow => self.bg_standard(103),
            Color::BrightBlue => self.bg_standard(104),
            Color::BrightMagenta => self.bg_standard(105),
            Color::BrightCyan => self.bg_standard(106),
            Color::BrightWhite => self.bg_standard(107),
            Color::AnsiValue(idx) => self.bg_8bit(idx),
            Color::Rgb24 { r, g, b } => self.bg_24bit(r, g, b),
        }
    }

    /// Internal: the underline color code.  Only extended colors have one;
    /// a named color yields the empty string.
    fn underline_color_code_explicit(&self, color: Color) -> (r: String)
        ensures
            r@ == spec_underline_color_code(color),
    {
        match color {
            Color::AnsiValue(idx) => self.underline_8bit(idx),
            Color::Rgb24 { r, g, b } => self.underline_24bit(r, g, b),
            _ => {
                let s = String::new();
                proof {
                    assert(s@ =~= spec_underline_color_code(color));
                }
                s
            },
        }
    }

    /// Produce the ANSI escape code for an 8-bit foreground color (SGR 38;5;N).
    pub fn fg_8bit(&self, idx: u8) -> (r: String)
        ensures
            r@ == csi_code(palette_body(38, idx), 'm'),
    {
        palette_code(38, idx)
    }

    /// Produce the ANSI escape code for a 24-bit foreground color (SGR 38;2;R;G;B).
    pub fn fg_24bit(&self, r: u8, g: u8, b: u8) -> (s: String)
        ensures
            s@ == csi_code(rgb_body(38, r, g, b), 'm'),
    {
        rgb_code(38, r, g, b)
    }

    /// Produce the ANSI escape code for a standard background color
    /// (SGR 40-47, 100-107); `code` is used as given.
    pub fn bg_standard(&self, code: u8) -> (r: String)
        ensures
            r@ == sgr_of_num(code as int),
    {
        self.simple_sgr(code)
    }

    /// Produce the ANSI escape code for an 8-bit background color (SGR 48;5;N).
    pub fn bg_8bit(&self, idx: u8) -> (r: String)
        ensures
            r@ == csi_code(palette_body(48, idx), 'm'),
    {
        palette_code(48, idx)
    }

    /// Produce the ANSI escape code for a 24-bit background color (SGR 48;2;R;G;B).
    pub fn bg_24bit(&self, r: u8, g: u8, b: u8) -> (s: String)
        ensures
            s@ == csi_code(rgb_body(48, r, g, b), 'm'),
    {
        rgb_code(48, r, g, b)
    }

    /// Produce the ANSI escape code for an 8-bit underline color (SGR 58;5;N).
    pub fn underline_8bit(&self, idx: u8) -> (r: String)
        ensures
            r@ == csi_code(palette_body(58, idx), 'm'),
    {
        palette_code(58, idx)
    }

    /// Produce the ANSI escape code for a 24-bit underline color (SGR 58;2;R;G;B).
    pub fn underline_24bit(&self, r: u8, g: u8, b: u8) -> (s: String)
        ensures
            s@ == csi_code(rgb_body(58, r, g, b), 'm'),
    {
        rgb_code(58, r, g, b)
    }

    /// Produce the ANSI escape code for a cursor movement.
    pub fn cursor_code(&self, movement: CursorMove) -> (r: String)
        ensures
            r@ == spec_cursor_code(movement),
    {
        match movement {
            CursorMove::Up(n) => num_code(n, 'A'),
            CursorMove::Down(n) => num_code(n, 'B'),
            CursorMove::Forward(n) => num_code(n, 'C'),
            CursorMove::Backward(n) => num_code(n, 'D'),
            CursorMove::NextLine(n) => num_code(n, 'E'),
            CursorMove::PreviousLine(n) => num_code(n, 'F'),
            CursorMove::HorizontalAbsolute(n) => num_code(n, 'G'),
            CursorMove::Position { row, col } => {
                let mut s = begin_csi();
                push_dec(&mut s, row);
                push_char(&mut s, ';');
                push_dec(&mut s, col);
                push_char(&mut s, 'H');
                proof {
                    assert(s@ =~= spec_cursor_code(movement));
                }
                s
            },
        }
    }

    /// Produce the ANSI escape code for clearing display or line.
    pub fn erase_code(&self, erase: Erase) -> (r: String)
        ensures
            r@ == spec_erase_code(erase),
    {
        match erase {
            Erase::Display(mode) => num_code(erase_mode_num(mode) as u16, 'J'),
            Erase::Line(mode) => num_code(erase_mode_num(mode) as u16, 'K'),
        }
    }

    /// Produce the ANSI escape code for device control.
    pub fn device_code(&self, device: DeviceControl) -> (r: String)
        ensures
            r@ == spec_device_code(device),
    {
        let mut s = begin_csi();
        match device {
            DeviceControl::SaveCursor => {
                push_char(&mut s, 's');
            },
            DeviceControl::RestoreCursor => {
                push_char(&mut s, 'u');
            },
            DeviceControl::HideCursor => {
                push_char(&mut s, '?');
                push_char(&mut s, '2');
                push_char(&mut s, '5');
                push_char(&mut s, 'l');
            },
            DeviceControl::ShowCursor => {
                push_char(&mut s, '?');
                push_char(&mut s, '2');
                push_char(&mut s, '5');
                push_char(&mut s, 'h');
            },
        }
        proof {
            assert(s@ =~= spec_device_code(device));
        }
        s
    }

    /// Produce the ANSI escape code for any [`AnsiEscape`] variant.
    pub fn escape_code(&self, code: AnsiEscape) -> (r: String)
        ensures
            r@ == spec_escape_code(code),
    {
        match code {
            AnsiEscape::Sgr(attr) => self.sgr_code(attr),
            AnsiEscape::Cursor(movement) => self.cursor_code(movement),
            AnsiEscape::Erase(erase) => self.erase_code(erase),
            AnsiEscape::Device(device) => self.device_code(device),
        }
    }
}

/// Helper to convert an erase mode to its numeric code.
fn erase_mode_num(mode: EraseMode) -> (r: u8)
    ensures
        r as int == spec_erase_mode_num(mode),
{
    match mode {
        EraseMode::ToEnd => 0,
        EraseMode::ToStart => 1,
        EraseMode::All => 2,
    }
}

/// A string holding the CSI introducer.
fn begin_csi() -> (s: String)
    ensures
        s@ == csi_prefix(),
{
    let mut s = String::new();
    push_char(&mut s, '\x1b');
    push_char(&mut s, '[');
    proof {
        assert(s@ =~= csi_prefix());
    }
    s
}

/// A CSI sequence with one numeric parameter and the given final byte.
fn num_code(n: u16, fin: char) -> (s: String)
    ensures
        s@ == csi_code(spec_dec(n as int), fin),
{
    let mut s = begin_csi();
    push_dec(&mut s, n);
    push_char(&mut s, fin);
    proof {
        assert(s@ =~= csi_code(spec_dec(n as int), fin));
    }
    s
}

/// The extended 8-bit palette form `ESC [ intro;5;v m`.
fn palette_code(intro: u8, v: u8) -> (s: String)
    ensures
        s@ == csi_code(palette_body(intro as int, v), 'm'),
{
    let mut s = begin_csi();
    push_dec(&mut s, intro as u16);
    push_char(&mut s, ';');
    push_dec(&mut s, 5);
    push_char(&mut s, ';');
    push_dec(&mut s, v as u16);
    push_char(&mut s, 'm');
    proof {
        assert(s@ =~= csi_code(palette_body(intro as int, v), 'm'));
    }
    s
}

/// The extended 24-bit form `ESC [ intro;2;r;g;b m`.
fn rgb_code(intro: u8, r: u8, g: u8, b: u8) -> (s: String)
    ensures
        s@ == csi_code(rgb_body(intro as int, r, g, b), 'm'),
{
    let mut s = begin_csi();
    push_dec(&mut s, intro as u16);
    push_char(&mut s, ';');
    push_dec(&mut s, 2);
    push_char(&mut s, ';');
    push_dec(&mut s, r as u16);
    push_char(&mut s, ';');
    push_dec(&mut s, g as u16);
    push_char(&mut s, ';');
    push_dec(&mut s, b as u16);
    push_char(&mut s, 'm');
    proof {
        assert(s@ =~= csi_code(rgb_body(intro as int, r, g, b), 'm'));
    }
    s
}

} // verus!
