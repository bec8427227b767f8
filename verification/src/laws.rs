//! Laws relating the encoder and the decoder: what the decoder makes of the
//! encoder's canonical sequences.

use vstd::prelude::*;

use crate::ansi_creator::csi_code;
use crate::ansi_creator::palette_body;
use crate::ansi_creator::rgb_body;
use crate::ansi_creator::fg_color_num;
use crate::ansi_creator::spec_cursor_code;
use crate::ansi_creator::spec_device_code;
use crate::ansi_creator::spec_erase_code;
use crate::ansi_creator::spec_erase_mode_num;
use crate::ansi_creator::spec_escape_code;
use crate::ansi_creator::spec_sgr_code;
use crate::ansi_types::AnsiEscape;
use crate::ansi_types::Color;
use crate::ansi_types::CursorMove;
use crate::ansi_types::DeviceControl;
use crate::ansi_types::Erase;
use crate::ansi_types::SgrAttribute;
use crate::decimal::all_digits;
use crate::decimal::digit_char;
use crate::decimal::digit_val;
use crate::decimal::is_digit;
use crate::decimal::lemma_dec_round_trip;
use crate::decimal::lemma_spec_dec_digits;
use crate::decimal::parse_u16_spec;
use crate::decimal::parse_u8_spec;
use crate::decimal::spec_dec;
use crate::decode::apply_escapes;
use crate::decode::basic_sgr;
use crate::decode::close_spans;
use crate::decode::decode_from;
use crate::decode::init_state;
use crate::decode::spec_parse;
use crate::decode::DecodeOut;
use crate::decode::PointRec;
use crate::decode::SpanRec;
use crate::decode::bright_color;
use crate::decode::cursor_for;
use crate::decode::device_for;
use crate::decode::erase_for;
use crate::decode::escapes_for;
use crate::decode::find_final_from;
use crate::decode::find_semi_from;
use crate::decode::is_csi_final;
use crate::decode::is_ext_intro;
use crate::decode::lemma_find_final_pin;
use crate::decode::lemma_find_semi_pin;
use crate::decode::nonempty_segments;
use crate::attr_set::insert_attr;
use crate::decode::sgr_attrs;
use crate::decode::slot_attr_for;
use crate::decode::std_color;
use crate::decode::apply_sgr;
use crate::decode::char_width;
use crate::decode::StyleState;

verus! {

/// The escape values the decoder recognizes in one standalone CSI sequence
/// scanned from its start: what `parse_next_escapes` yields on it.
pub open spec fn escapes_of_sequence(s: Seq<char>) -> Seq<AnsiEscape> {
    let t = find_final_from(s, 2);
    if s.len() >= 2 && s[0] == '\x1b' && s[1] == '[' && t < s.len() {
        escapes_for(s.subrange(2, t), s[t])
    } else {
        seq![]
    }
}

proof fn lemma_digits_not_final(s: Seq<char>)
    requires
        all_digits(s),
    ensures
        forall|i: int| 0 <= i < s.len() ==> !is_csi_final(#[trigger] s[i]),
        forall|i: int| 0 <= i < s.len() ==> #[trigger] s[i] != ';',
{
    assert forall|i: int| 0 <= i < s.len() implies !is_csi_final(#[trigger] s[i]) && s[i]
        != ';' by {
        assert(is_digit(s[i]));
    }
}

proof fn lemma_not_final_concat(a: Seq<char>, b: Seq<char>)
    requires
        forall|i: int| 0 <= i < a.len() ==> !is_csi_final(#[trigger] a[i]),
        forall|i: int| 0 <= i < b.len() ==> !is_csi_final(#[trigger] b[i]),
    ensures
        forall|i: int| 0 <= i < (a + b).len() ==> !is_csi_final(#[trigger] (a + b)[i]),
{
    assert forall|i: int| 0 <= i < (a + b).len() implies !is_csi_final(#[trigger] (a + b)[i]) by {
        if i < a.len() {
            assert((a + b)[i] == a[i]);
        } else {
            assert((a + b)[i] == b[i - a.len()]);
        }
    }
}

/// A well-delimited CSI sequence classifies through its body and final byte.
proof fn lemma_sequence_escapes(body: Seq<char>, fin: char)
    requires
        forall|i: int| 0 <= i < body.len() ==> !is_csi_final(#[trigger] body[i]),
        is_csi_final(fin),
    ensures
        escapes_of_sequence(csi_code(body, fin)) == escapes_for(body, fin),
{
    let s = csi_code(body, fin);
    assert(s.len() == body.len() + 3);
    assert(s[0] == '\x1b');
    assert(s[1] == '[');
    assert forall|j: int| 2 <= j < 2 + body.len() implies !is_csi_final(#[trigger] s[j]) by {
        assert(s[j] == body[j - 2]);
    }
    assert(s[2 + body.len() as int] == fin);
    lemma_find_final_pin(s, 2, 2 + body.len() as int);
    assert(s.subrange(2, 2 + body.len() as int) =~= body);
}

/// One segment with no separator in it is the whole segment list.
proof fn lemma_segments_single(a: Seq<char>)
    requires
        a.len() >= 1,
        forall|i: int| 0 <= i < a.len() ==> #[trigger] a[i] != ';',
    ensures
        nonempty_segments(a) == seq![a],
{
    lemma_find_semi_pin(a, 0, a.len() as int);
}

/// A separator after a non-empty separator-free head splits off that head.
proof fn lemma_segments_head(a: Seq<char>, rest: Seq<char>)
    requires
        a.len() >= 1,
        forall|i: int| 0 <= i < a.len() ==> #[trigger] a[i] != ';',
    ensures
        nonempty_segments(a + seq![';'] + rest) == seq![a] + nonempty_segments(rest),
{
    let s = a + seq![';'] + rest;
    assert forall|j: int| 0 <= j < a.len() implies #[trigger] s[j] != ';' by {
        assert(s[j] == a[j]);
    }
    assert(s[a.len() as int] == ';');
    lemma_find_semi_pin(s, 0, a.len() as int);
    assert(s.take(a.len() as int) =~= a);
    assert(s.skip(a.len() as int + 1) =~= rest);
}

/// The canonical numeral of a two-digit number, spelled out.
proof fn lemma_dec_two_digits(n: int)
    requires
        10 <= n <= 99,
    ensures
        spec_dec(n) == seq![digit_char(n / 10), digit_char(n % 10)],
{
    assert(spec_dec(n / 10) == seq![digit_char(n / 10)]);
    assert(spec_dec(n) =~= seq![digit_char(n / 10), digit_char(n % 10)]);
}

/// The canonical numeral of a three-digit number, spelled out.
proof fn lemma_dec_three_digits(n: int)
    requires
        100 <= n <= 999,
    ensures
        spec_dec(n) == seq![
            digit_char(n / 10 / 10),
            digit_char((n / 10) % 10),
            digit_char(n % 10),
        ],
{
    lemma_dec_two_digits(n / 10);
    assert(spec_dec(n) =~= seq![
        digit_char(n / 10 / 10),
        digit_char((n / 10) % 10),
        digit_char(n % 10),
    ]);
}

/// A single numeral segment that directly names an attribute classifies to
/// exactly that attribute.
proof fn lemma_sgr_single(n: int, a: SgrAttribute)
    requires
        0 <= n,
        basic_sgr(spec_dec(n)) == Option::Some(a),
        !is_ext_intro(spec_dec(n)),
    ensures
        escapes_for(spec_dec(n), 'm') == seq![AnsiEscape::Sgr(a)],
{
    lemma_spec_dec_digits(n);
    lemma_digits_not_final(spec_dec(n));
    lemma_segments_single(spec_dec(n));
    let segs = seq![spec_dec(n)];
    assert(segs.skip(1) =~= Seq::<Seq<char>>::empty());
    assert(sgr_attrs(Seq::<Seq<char>>::empty()) == Seq::<SgrAttribute>::empty());
    assert(sgr_attrs(segs) =~= seq![a]);
    assert(seq![a].map_values(|x: SgrAttribute| AnsiEscape::Sgr(x)) =~= seq![AnsiEscape::Sgr(a)]);
}

/// The extended 8-bit palette body classifies to its one slot attribute.
proof fn lemma_ext_palette(intro: int, v: u8)
    requires
        intro == 38 || intro == 48 || intro == 58,
    ensures
        escapes_for(palette_body(intro, v), 'm') == seq![
            AnsiEscape::Sgr(slot_attr_for(spec_dec(intro), Color::AnsiValue(v))),
        ],
{
    let slot = slot_attr_for(spec_dec(intro), Color::AnsiValue(v));
    lemma_dec_two_digits(intro);
    assert(is_ext_intro(spec_dec(intro)));
    lemma_spec_dec_digits(intro);
    lemma_spec_dec_digits(5);
    lemma_spec_dec_digits(v as int);
    lemma_digits_not_final(spec_dec(intro));
    lemma_digits_not_final(spec_dec(5));
    lemma_digits_not_final(spec_dec(v as int));
    lemma_dec_round_trip(v as int);
    let body = palette_body(intro, v);
    assert(body =~= spec_dec(intro) + seq![';'] + (spec_dec(5) + seq![';'] + spec_dec(v as int)));
    lemma_segments_head(spec_dec(intro), spec_dec(5) + seq![';'] + spec_dec(v as int));
    lemma_segments_head(spec_dec(5), spec_dec(v as int));
    lemma_segments_single(spec_dec(v as int));
    let segs = nonempty_segments(body);
    assert(segs =~~= seq![spec_dec(intro), spec_dec(5), spec_dec(v as int)]);
    assert(spec_dec(5) == seq!['5']);
    assert(parse_u8_spec(spec_dec(v as int)) == Option::Some(v));
    assert(segs.skip(3) =~= Seq::<Seq<char>>::empty());
    assert(sgr_attrs(Seq::<Seq<char>>::empty()) == Seq::<SgrAttribute>::empty());
    assert(sgr_attrs(segs) =~= seq![slot]);
    assert(seq![slot].map_values(|x: SgrAttribute| AnsiEscape::Sgr(x)) =~= seq![
        AnsiEscape::Sgr(slot),
    ]);
}

/// The extended 24-bit body classifies to its one slot attribute.
proof fn lemma_ext_rgb(intro: int, rr: u8, gg: u8, bb: u8)
    requires
        intro == 38 || intro == 48 || intro == 58,
    ensures
        escapes_for(rgb_body(intro, rr, gg, bb), 'm') == seq![
            AnsiEscape::Sgr(slot_attr_for(spec_dec(intro), Color::Rgb24 { r: rr, g: gg, b: bb })),
        ],
{
    let slot = slot_attr_for(spec_dec(intro), Color::Rgb24 { r: rr, g: gg, b: bb });
    lemma_dec_two_digits(intro);
    assert(is_ext_intro(spec_dec(intro)));
    lemma_spec_dec_digits(intro);
    lemma_spec_dec_digits(2);
    lemma_spec_dec_digits(rr as int);
    lemma_spec_dec_digits(gg as int);
    lemma_spec_dec_digits(bb as int);
    lemma_digits_not_final(spec_dec(intro));
    lemma_digits_not_final(spec_dec(2));
    lemma_digits_not_final(spec_dec(rr as int));
    lemma_digits_not_final(spec_dec(gg as int));
    lemma_digits_not_final(spec_dec(bb as int));
    lemma_dec_round_trip(rr as int);
    lemma_dec_round_trip(gg as int);
    lemma_dec_round_trip(bb as int);
    let body = rgb_body(intro, rr, gg, bb);
    let tail3 = spec_dec(rr as int) + seq![';'] + (spec_dec(gg as int) + seq![';'] + spec_dec(
        bb as int,
    ));
    assert(body =~= spec_dec(intro) + seq![';'] + (spec_dec(2) + seq![';'] + tail3));
    lemma_segments_head(spec_dec(intro), spec_dec(2) + seq![';'] + tail3);
    lemma_segments_head(spec_dec(2), tail3);
    lemma_segments_head(spec_dec(rr as int), spec_dec(gg as int) + seq![';'] + spec_dec(bb as int));
    lemma_segments_head(spec_dec(gg as int), spec_dec(bb as int));
    lemma_segments_single(spec_dec(bb as int));
    let segs = nonempty_segments(body);
    assert(segs =~~= seq![
        spec_dec(intro),
        spec_dec(2),
        spec_dec(rr as int),
        spec_dec(gg as int),
        spec_dec(bb as int),
    ]);
    assert(spec_dec(2) == seq!['2']);
    assert(spec_dec(2) != seq!['5']);
    assert(segs.skip(5) =~= Seq::<Seq<char>>::empty());
    assert(sgr_attrs(Seq::<Seq<char>>::empty()) == Seq::<SgrAttribute>::empty());
    assert(sgr_attrs(segs) =~= seq![slot]);
    assert(seq![slot].map_values(|x: SgrAttribute| AnsiEscape::Sgr(x)) =~= seq![
        AnsiEscape::Sgr(slot),
    ]);
}

proof fn lemma_sgr_round_trip(a: SgrAttribute)
    requires
        (a matches SgrAttribute::UnderlineColor(c) ==> (c is AnsiValue || c is Rgb24)),
    ensures
        escapes_of_sequence(spec_sgr_code(a)) == seq![AnsiEscape::Sgr(a)],
{
    match a {
        SgrAttribute::Foreground(c) => {
            match c {
                Color::AnsiValue(v) => {
                    lemma_ext_palette(38, v);
                    lemma_dec_two_digits(38);
                    lemma_body_not_final_palette(38, v);
                    lemma_sequence_escapes(palette_body(38, v), 'm');
                },
                Color::Rgb24 { r, g, b } => {
                    lemma_ext_rgb(38, r, g, b);
                    lemma_dec_two_digits(38);
                    lemma_body_not_final_rgb(38, r, g, b);
                    lemma_sequence_escapes(rgb_body(38, r, g, b), 'm');
                },
                _ => {
                    let n = fg_color_num(c);
                    assert(30 <= n <= 37 || 90 <= n <= 97);
                    lemma_dec_two_digits(n);
                    let seg = spec_dec(n);
                    assert(digit_val(digit_char(n % 10)) == n % 10);
                    assert(is_digit(digit_char(n % 10)));
                    if 30 <= n <= 37 {
                        assert(seg[0] == '3');
                        assert(std_color(n % 10) == c);
                    } else {
                        assert(seg[0] == '9');
                        assert(bright_color(n % 10) == c);
                    }
                    assert(basic_sgr(seg) == Option::Some(a));
                    assert(seg[1] != '8');
                    assert(!is_ext_intro(seg));
                    lemma_sgr_single(n, a);
                    lemma_spec_dec_digits(n);
                    lemma_digits_not_final(seg);
                    lemma_sequence_escapes(seg, 'm');
                },
            }
        },
        SgrAttribute::Background(c) => {
            match c {
                Color::AnsiValue(v) => {
                    lemma_ext_palette(48, v);
                    lemma_dec_two_digits(48);
                    lemma_body_not_final_palette(48, v);
                    lemma_sequence_escapes(palette_body(48, v), 'm');
                },
                Color::Rgb24 { r, g, b } => {
                    lemma_ext_rgb(48, r, g, b);
                    lemma_dec_two_digits(48);
                    lemma_body_not_final_rgb(48, r, g, b);
                    lemma_sequence_escapes(rgb_body(48, r, g, b), 'm');
                },
                _ => {
                    let n = fg_color_num(c) + 10;
                    assert(40 <= n <= 47 || 100 <= n <= 107);
                    let seg = spec_dec(n);
                    if 40 <= n <= 47 {
                        lemma_dec_two_digits(n);
                        assert(digit_val(digit_char(n % 10)) == n % 10);
                        assert(is_digit(digit_char(n % 10)));
                        assert(seg[0] == '4');
                        assert(std_color(n % 10) == c);
                        assert(basic_sgr(seg) == Option::Some(a));
                        assert(seg[1] != '8');
                        assert(!is_ext_intro(seg));
                    } else {
                        lemma_dec_three_digits(n);
                        assert(digit_val(digit_char(n % 10)) == n % 10);
                        assert(is_digit(digit_char(n % 10)));
                        assert(seg[0] == '1');
                        assert(seg[1] == '0');
                        assert(bright_color(n % 10) == c);
                        assert(basic_sgr(seg) == Option::Some(a));
                        assert(seg.len() == 3);
                        assert(!is_ext_intro(seg));
                    }
                    lemma_sgr_single(n, a);
                    lemma_spec_dec_digits(n);
                    lemma_digits_not_final(seg);
                    lemma_sequence_escapes(seg, 'm');
                },
            }
        },
        SgrAttribute::UnderlineColor(c) => {
            match c {
                Color::AnsiValue(v) => {
                    lemma_ext_palette(58, v);
                    lemma_dec_two_digits(58);
                    lemma_body_not_final_palette(58, v);
                    lemma_sequence_escapes(palette_body(58, v), 'm');
                },
                Color::Rgb24 { r, g, b } => {
                    lemma_ext_rgb(58, r, g, b);
                    lemma_dec_two_digits(58);
                    lemma_body_not_final_rgb(58, r, g, b);
                    lemma_sequence_escapes(rgb_body(58, r, g, b), 'm');
                },
                _ => {
                    assert(false);
                },
            }
        },
        _ => {
            let n: int = match a {
                SgrAttribute::Reset => 0,
                SgrAttribute::Bold => 1,
                SgrAttribute::Faint => 2,
                SgrAttribute::Italic => 3,
                SgrAttribute::Underline => 4,
                SgrAttribute::BlinkSlow => 5,
                SgrAttribute::BlinkRapid => 6,
                SgrAttribute::Reverse => 7,
                SgrAttribute::Conceal => 8,
                SgrAttribute::CrossedOut => 9,
                _ => 0,
            };
            let seg = spec_dec(n);
            assert(seg == seq![digit_char(n)]);
            assert(basic_sgr(seg) == Option::Some(a));
            assert(!is_ext_intro(seg));
            lemma_sgr_single(n, a);
            lemma_spec_dec_digits(n);
            lemma_digits_not_final(seg);
            lemma_sequence_escapes(seg, 'm');
        },
    }
}

proof fn lemma_body_not_final_palette(intro: int, v: u8)
    requires
        0 <= intro,
    ensures
        forall|i: int|
            0 <= i < palette_body(intro, v).len() ==> !is_csi_final(
                #[trigger] palette_body(intro, v)[i],
            ),
{
    lemma_spec_dec_digits(intro);
    lemma_spec_dec_digits(5);
    lemma_spec_dec_digits(v as int);
    lemma_digits_not_final(spec_dec(intro));
    lemma_digits_not_final(spec_dec(5));
    lemma_digits_not_final(spec_dec(v as int));
    lemma_not_final_concat(spec_dec(intro), seq![';']);
    lemma_not_final_concat(spec_dec(intro) + seq![';'], spec_dec(5));
    lemma_not_final_concat(spec_dec(intro) + seq![';'] + spec_dec(5), seq![';']);
    lemma_not_final_concat(spec_dec(intro) + seq![';'] + spec_dec(5) + seq![';'], spec_dec(v as int));
}

proof fn lemma_body_not_final_rgb(intro: int, rr: u8, gg: u8, bb: u8)
    requires
        0 <= intro,
    ensures
        forall|i: int|
            0 <= i < rgb_body(intro, rr, gg, bb).len() ==> !is_csi_final(
                #[trigger] rgb_body(intro, rr, gg, bb)[i],
            ),
{
    lemma_spec_dec_digits(intro);
    lemma_spec_dec_digits(2);
    lemma_spec_dec_digits(rr as int);
    lemma_spec_dec_digits(gg as int);
    lemma_spec_dec_digits(bb as int);
    lemma_digits_not_final(spec_dec(intro));
    lemma_digits_not_final(spec_dec(2));
    lemma_digits_not_final(spec_dec(rr as int));
    lemma_digits_not_final(spec_dec(gg as int));
    lemma_digits_not_final(spec_dec(bb as int));
    let p1 = spec_dec(intro) + seq![';'];
    let p2 = p1 + spec_dec(2);
    let p3 = p2 + seq![';'];
    let p4 = p3 + spec_dec(rr as int);
    let p5 = p4 + seq![';'];
    let p6 = p5 + spec_dec(gg as int);
    let p7 = p6 + seq![';'];
    lemma_not_final_concat(spec_dec(intro), seq![';']);
    lemma_not_final_concat(p1, spec_dec(2));
    lemma_not_final_concat(p2, seq![';']);
    lemma_not_final_concat(p3, spec_dec(rr as int));
    lemma_not_final_concat(p4, seq![';']);
    lemma_not_final_concat(p5, spec_dec(gg as int));
    lemma_not_final_concat(p6, seq![';']);
    lemma_not_final_concat(p7, spec_dec(bb as int));
}

proof fn lemma_cursor_round_trip(m: CursorMove)
    ensures
        escapes_of_sequence(spec_cursor_code(m)) == seq![AnsiEscape::Cursor(m)],
{
    match m {
        CursorMove::Position { row, col } => {
            lemma_dec_round_trip(row as int);
            lemma_dec_round_trip(col as int);
            lemma_spec_dec_digits(row as int);
            lemma_spec_dec_digits(col as int);
            lemma_digits_not_final(spec_dec(row as int));
            lemma_digits_not_final(spec_dec(col as int));
            let body = spec_dec(row as int) + seq![';'] + spec_dec(col as int);
            lemma_not_final_concat(spec_dec(row as int), seq![';']);
            lemma_not_final_concat(spec_dec(row as int) + seq![';'], spec_dec(col as int));
            lemma_sequence_escapes(body, 'H');
            let rl = spec_dec(row as int).len() as int;
            assert forall|j: int| 0 <= j < rl implies #[trigger] body[j] != ';' by {
                assert(body[j] == spec_dec(row as int)[j]);
            }
            assert(body[rl] == ';');
            lemma_find_semi_pin(body, 0, rl);
            assert(body.take(rl) =~= spec_dec(row as int));
            assert(parse_u16_spec(body.take(rl)) == Option::Some(row));
            assert forall|j: int| rl + 1 <= j < body.len() implies #[trigger] body[j] != ';' by {
                assert(body[j] == spec_dec(col as int)[j - rl - 1]);
            }
            lemma_find_semi_pin(body, rl + 1, body.len() as int);
            assert(body.subrange(rl + 1, body.len() as int) =~= spec_dec(col as int));
            assert(parse_u16_spec(body.subrange(rl + 1, body.len() as int)) == Option::Some(col));
            assert(cursor_for(body, 'H') == Option::Some(m));
        },
        _ => {
            let n: u16 = match m {
                CursorMove::Up(n) => n,
                CursorMove::Down(n) => n,
                CursorMove::Forward(n) => n,
                CursorMove::Backward(n) => n,
                CursorMove::NextLine(n) => n,
                CursorMove::PreviousLine(n) => n,
                CursorMove::HorizontalAbsolute(n) => n,
                CursorMove::Position { .. } => 0,
            };
            let fin: char = match m {
                CursorMove::Up(_) => 'A',
                CursorMove::Down(_) => 'B',
                CursorMove::Forward(_) => 'C',
                CursorMove::Backward(_) => 'D',
                CursorMove::NextLine(_) => 'E',
                CursorMove::PreviousLine(_) => 'F',
                CursorMove::HorizontalAbsolute(_) => 'G',
                CursorMove::Position { .. } => 'H',
            };
            lemma_dec_round_trip(n as int);
            lemma_spec_dec_digits(n as int);
            lemma_digits_not_final(spec_dec(n as int));
            lemma_sequence_escapes(spec_dec(n as int), fin);
            assert(parse_u16_spec(spec_dec(n as int)) == Option::Some(n));
            assert(cursor_for(spec_dec(n as int), fin) == Option::Some(m));
        },
    }
}

proof fn lemma_erase_round_trip(e: Erase)
    ensures
        escapes_of_sequence(spec_erase_code(e)) == seq![AnsiEscape::Erase(e)],
{
    let num = match e {
        Erase::Display(mode) => spec_erase_mode_num(mode),
        Erase::Line(mode) => spec_erase_mode_num(mode),
    };
    let fin: char = match e {
        Erase::Display(_) => 'J',
        Erase::Line(_) => 'K',
    };
    let body = spec_dec(num);
    assert(body == seq![digit_char(num)]);
    lemma_spec_dec_digits(num);
    lemma_digits_not_final(body);
    lemma_sequence_escapes(body, fin);
    assert(cursor_for(body, fin) is None);
    assert(erase_for(body, fin) == Option::Some(e));
}

proof fn lemma_device_round_trip(d: DeviceControl)
    ensures
        escapes_of_sequence(spec_device_code(d)) == seq![AnsiEscape::Device(d)],
{
    match d {
        DeviceControl::SaveCursor => {
            let body = Seq::<char>::empty();
            lemma_sequence_escapes(body, 's');
            assert(cursor_for(body, 's') is None);
            assert(erase_for(body, 's') is None);
            assert(device_for(body, 's') == Option::Some(d));
        },
        DeviceControl::RestoreCursor => {
            let body = Seq::<char>::empty();
            lemma_sequence_escapes(body, 'u');
            assert(cursor_for(body, 'u') is None);
            assert(erase_for(body, 'u') is None);
            assert(device_for(body, 'u') == Option::Some(d));
        },
        DeviceControl::HideCursor => {
            let body = seq!['?', '2', '5'];
            lemma_sequence_escapes(body, 'l');
            assert(cursor_for(body, 'l') is None);
            assert(body != seq!['0'] && body != seq!['1'] && body != seq!['2']);
            assert(erase_for(body, 'l') is None);
            assert(device_for(body, 'l') == Option::Some(d));
        },
        DeviceControl::ShowCursor => {
            let body = seq!['?', '2', '5'];
            lemma_sequence_escapes(body, 'h');
            assert(cursor_for(body, 'h') is None);
            assert(body != seq!['0'] && body != seq!['1'] && body != seq!['2']);
            assert(erase_for(body, 'h') is None);
            assert(device_for(body, 'h') == Option::Some(d));
        },
    }
}

/// Round trip: the decoder's classification of the canonical encoding of
/// any escape value yields exactly that value — same variant, same
/// payload.  The one exception is an underline color carried by a named
/// color: such a value has no encoding (it encodes to the empty string),
/// so the law holds of every encodable escape value.
pub proof fn lemma_escape_round_trip(e: AnsiEscape)
    requires
        (e matches AnsiEscape::Sgr(a) ==> (a matches SgrAttribute::UnderlineColor(c) ==> (
        c is AnsiValue || c is Rgb24))),
    ensures
        escapes_of_sequence(spec_escape_code(e)) == seq![e],
{
    match e {
        AnsiEscape::Sgr(a) => {
            lemma_sgr_round_trip(a);
            assert(seq![AnsiEscape::Sgr(a)] =~= seq![e]);
        },
        AnsiEscape::Cursor(m) => {
            lemma_cursor_round_trip(m);
        },
        AnsiEscape::Erase(er) => {
            lemma_erase_round_trip(er);
        },
        AnsiEscape::Device(d) => {
            lemma_device_round_trip(d);
        },
    }
}

/// A standalone CSI sequence decodes by feeding its escape values to the
/// machine at offset zero, then closing at input end.
proof fn lemma_single_sequence_decode(body: Seq<char>, fin: char)
    requires
        forall|i: int| 0 <= i < body.len() ==> !is_csi_final(#[trigger] body[i]),
        is_csi_final(fin),
    ensures
        ({
            let stepped = apply_escapes(escapes_for(body, fin), 0, init_state());
            &&& spec_parse(csi_code(body, fin)).text == Seq::<char>::empty()
            &&& spec_parse(csi_code(body, fin)).spans == stepped.0 + close_spans(stepped.2, 0)
            &&& spec_parse(csi_code(body, fin)).points == stepped.1
        }),
{
    let s = csi_code(body, fin);
    assert(s[0] == '\x1b');
    assert(s[1] == '[');
    assert(s.len() == body.len() + 3);
    assert forall|j: int| 2 <= j < 2 + body.len() implies !is_csi_final(#[trigger] s[j]) by {
        assert(s[j] == body[j - 2]);
    }
    assert(s[2 + body.len() as int] == fin);
    lemma_find_final_pin(s, 2, 2 + body.len() as int);
    let t = find_final_from(s, 2);
    assert(t == s.len() - 1);
    assert(s.subrange(2, t) =~= body);
    let stepped = apply_escapes(escapes_for(body, fin), 0, init_state());
    let rest = decode_from(s, t + 1, 0, stepped.2);
    assert(rest.text == Seq::<char>::empty());
    assert(rest.spans == close_spans(stepped.2, 0));
    assert(rest.points == Seq::<PointRec>::empty());
    assert(spec_parse(s).text == rest.text);
    assert(spec_parse(s).spans == stepped.0 + rest.spans);
    assert(spec_parse(s).points == stepped.1 + rest.points);
    assert(stepped.1 + Seq::<PointRec>::empty() =~= stepped.1);
}

/// Decoding the canonical encoding of a cursor, erase, or device command
/// with the full decoder yields exactly one point at offset zero carrying
/// that command, no text and no spans.
pub proof fn lemma_point_round_trip(e: AnsiEscape)
    requires
        !(e is Sgr),
    ensures
        spec_parse(spec_escape_code(e)).text == Seq::<char>::empty(),
        spec_parse(spec_escape_code(e)).spans == Seq::<SpanRec>::empty(),
        spec_parse(spec_escape_code(e)).points == seq![PointRec { pos: 0, code: e }],
{
    lemma_escape_round_trip(e);
    let body = spec_escape_code(e).subrange(2, spec_escape_code(e).len() - 1);
    let fin = spec_escape_code(e)[spec_escape_code(e).len() - 1];
    lemma_encoding_shape(e);
    assert(spec_escape_code(e) =~= csi_code(body, fin));
    assert(escapes_for(body, fin) == seq![e]) by {
        lemma_sequence_escapes(body, fin);
        assert(escapes_of_sequence(csi_code(body, fin)) == seq![e]);
    }
    lemma_single_sequence_decode(body, fin);
    let stepped = apply_escapes(seq![e], 0, init_state());
    assert(seq![e].drop_first() =~= Seq::<AnsiEscape>::empty());
    assert(apply_escapes(Seq::<AnsiEscape>::empty(), 0, init_state()) == (
        Seq::<SpanRec>::empty(),
        Seq::<PointRec>::empty(),
        init_state(),
    ));
    assert(stepped.0 =~= Seq::<SpanRec>::empty());
    assert(stepped.1 =~= seq![PointRec { pos: 0, code: e }]);
    assert(stepped.2 == init_state());
    assert(close_spans(init_state(), 0) == Seq::<SpanRec>::empty());
    assert(stepped.0 + close_spans(stepped.2, 0) =~= Seq::<SpanRec>::empty());
}

/// The encoding of a non-SGR escape is a single CSI sequence: introducer,
/// non-final body characters, one final byte.
proof fn lemma_encoding_shape(e: AnsiEscape)
    requires
        !(e is Sgr),
    ensures
        ({
            let s = spec_escape_code(e);
            &&& s.len() >= 3
            &&& s[0] == '\x1b'
            &&& s[1] == '['
            &&& forall|i: int| 2 <= i < s.len() - 1 ==> !is_csi_final(#[trigger] s[i])
            &&& is_csi_final(s[s.len() - 1])
        }),
{
    let s = spec_escape_code(e);
    match e {
        AnsiEscape::Cursor(m) => {
            match m {
                CursorMove::Position { row, col } => {
                    lemma_spec_dec_digits(row as int);
                    lemma_spec_dec_digits(col as int);
                    lemma_digits_not_final(spec_dec(row as int));
                    lemma_digits_not_final(spec_dec(col as int));
                    let body = spec_dec(row as int) + seq![';'] + spec_dec(col as int);
                    lemma_not_final_concat(spec_dec(row as int), seq![';']);
                    lemma_not_final_concat(spec_dec(row as int) + seq![';'], spec_dec(col as int));
                    assert forall|i: int| 2 <= i < s.len() - 1 implies !is_csi_final(
                        #[trigger] s[i],
                    ) by {
                        assert(s[i] == body[i - 2]);
                    }
                },
                _ => {
                    let n: u16 = match m {
                        CursorMove::Up(n) => n,
                        CursorMove::Down(n) => n,
                        CursorMove::Forward(n) => n,
                        CursorMove::Backward(n) => n,
                        CursorMove::NextLine(n) => n,
                        CursorMove::PreviousLine(n) => n,
                        CursorMove::HorizontalAbsolute(n) => n,
                        CursorMove::Position { .. } => 0,
                    };
                    lemma_spec_dec_digits(n as int);
                    lemma_digits_not_final(spec_dec(n as int));
                    assert forall|i: int| 2 <= i < s.len() - 1 implies !is_csi_final(
                        #[trigger] s[i],
                    ) by {
                        assert(s[i] == spec_dec(n as int)[i - 2]);
                    }
                },
            }
        },
        AnsiEscape::Erase(er) => {
            let num = match er {
                Erase::Display(mode) => spec_erase_mode_num(mode),
                Erase::Line(mode) => spec_erase_mode_num(mode),
            };
            lemma_spec_dec_digits(num);
            lemma_digits_not_final(spec_dec(num));
            assert forall|i: int| 2 <= i < s.len() - 1 implies !is_csi_final(
                #[trigger] s[i],
            ) by {
                assert(s[i] == spec_dec(num)[i - 2]);
            }
        },
        AnsiEscape::Device(d) => {
            match d {
                DeviceControl::SaveCursor => {},
                DeviceControl::RestoreCursor => {},
                DeviceControl::HideCursor => {
                    assert forall|i: int| 2 <= i < s.len() - 1 implies !is_csi_final(
                        #[trigger] s[i],
                    ) by {
                        assert(s[i] == seq!['?', '2', '5'][i - 2]);
                    }
                },
                DeviceControl::ShowCursor => {
                    assert forall|i: int| 2 <= i < s.len() - 1 implies !is_csi_final(
                        #[trigger] s[i],
                    ) by {
                        assert(s[i] == seq!['?', '2', '5'][i - 2]);
                    }
                },
            }
        },
        AnsiEscape::Sgr(_) => {},
    }
}

/// The encoding of an SGR attribute (other than an underline color carried
/// by a named color) is a single CSI sequence with final byte `m`.
proof fn lemma_sgr_encoding_shape(a: SgrAttribute)
    requires
        (a matches SgrAttribute::UnderlineColor(c) ==> (c is AnsiValue || c is Rgb24)),
    ensures
        ({
            let s = spec_sgr_code(a);
            &&& s.len() >= 3
            &&& s[0] == '\x1b'
            &&& s[1] == '['
            &&& forall|i: int| 2 <= i < s.len() - 1 ==> !is_csi_final(#[trigger] s[i])
            &&& s[s.len() - 1] == 'm'
        }),
{
    let s = spec_sgr_code(a);
    match a {
        SgrAttribute::Foreground(c) | SgrAttribute::Background(c) | SgrAttribute::UnderlineColor(
            c,
        ) => {
            match c {
                Color::AnsiValue(v) => {
                    let intro: int = match a {
                        SgrAttribute::Foreground(_) => 38,
                        SgrAttribute::Background(_) => 48,
                        _ => 58,
                    };
                    lemma_body_not_final_palette(intro, v);
                    assert forall|i: int| 2 <= i < s.len() - 1 implies !is_csi_final(
                        #[trigger] s[i],
                    ) by {
                        assert(s[i] == palette_body(intro, v)[i - 2]);
                    }
                },
                Color::Rgb24 { r, g, b } => {
                    let intro: int = match a {
                        SgrAttribute::Foreground(_) => 38,
                        SgrAttribute::Background(_) => 48,
                        _ => 58,
                    };
                    lemma_body_not_final_rgb(intro, r, g, b);
                    assert forall|i: int| 2 <= i < s.len() - 1 implies !is_csi_final(
                        #[trigger] s[i],
                    ) by {
                        assert(s[i] == rgb_body(intro, r, g, b)[i - 2]);
                    }
                },
                _ => {
                    let n: int = match a {
                        SgrAttribute::Foreground(_) => fg_color_num(c),
                        SgrAttribute::Background(_) => fg_color_num(c) + 10,
                        _ => 0,
                    };
                    assert(n >= 0);
                    lemma_spec_dec_digits(n);
                    lemma_digits_not_final(spec_dec(n));
                    assert forall|i: int| 2 <= i < s.len() - 1 implies !is_csi_final(
                        #[trigger] s[i],
                    ) by {
                        assert(s[i] == spec_dec(n)[i - 2]);
                    }
                },
            }
        },
        _ => {
            let n: int = match a {
                SgrAttribute::Reset => 0,
                SgrAttribute::Bold => 1,
                SgrAttribute::Faint => 2,
                SgrAttribute::Italic => 3,
                SgrAttribute::Underline => 4,
                SgrAttribute::BlinkSlow => 5,
                SgrAttribute::BlinkRapid => 6,
                SgrAttribute::Reverse => 7,
                SgrAttribute::Conceal => 8,
                SgrAttribute::CrossedOut => 9,
                _ => 0,
            };
            lemma_spec_dec_digits(n);
            lemma_digits_not_final(spec_dec(n));
            assert forall|i: int| 2 <= i < s.len() - 1 implies !is_csi_final(
                #[trigger] s[i],
            ) by {
                assert(s[i] == spec_dec(n)[i - 2]);
            }
        },
    }
}

/// Round trip through the full decoder for styling: encoding an attribute,
/// one ordinary character, and Reset decodes to that character as text and
/// exactly one span over it carrying exactly that attribute.
pub proof fn lemma_sgr_span_round_trip(a: SgrAttribute, c: char)
    requires
        a != SgrAttribute::Reset,
        (a matches SgrAttribute::UnderlineColor(col) ==> (col is AnsiValue || col is Rgb24)),
        c != '\x1b',
    ensures
        ({
            let s = spec_sgr_code(a) + seq![c] + spec_sgr_code(SgrAttribute::Reset);
            &&& spec_parse(s).text == seq![c]
            &&& spec_parse(s).spans == seq![
                SpanRec { start: 0, end: char_width(c), codes: seq![a] },
            ]
            &&& spec_parse(s).points == Seq::<PointRec>::empty()
        }),
{
    let enc_a = spec_sgr_code(a);
    let enc_r = spec_sgr_code(SgrAttribute::Reset);
    let s = enc_a + seq![c] + enc_r;
    let al = enc_a.len() as int;
    lemma_sgr_encoding_shape(a);
    assert(enc_r =~= seq!['\x1b', '[', '0', 'm']);
    assert(s.len() == al + 5);
    assert forall|j: int| 0 <= j < al implies #[trigger] s[j] == enc_a[j] by {}
    assert(s[al] == c);
    assert forall|k: int| 0 <= k < 4 implies #[trigger] s[al + 1 + k] == enc_r[k] by {}
    lemma_sgr_round_trip(a);
    let body_a = enc_a.subrange(2, al - 1);
    assert(enc_a =~= csi_code(body_a, 'm'));
    assert forall|i: int| 0 <= i < body_a.len() implies !is_csi_final(#[trigger] body_a[i]) by {
        assert(body_a[i] == enc_a[i + 2]);
    }
    lemma_sequence_escapes(body_a, 'm');

    // step one: the attribute's own sequence
    assert(s[0] == '\x1b' && s[1] == '[');
    assert forall|j: int| 2 <= j < al - 1 implies !is_csi_final(#[trigger] s[j]) by {
        assert(s[j] == enc_a[j]);
        assert(enc_a[j] == body_a[j - 2]);
    }
    assert(is_csi_final(s[al - 1]));
    lemma_find_final_pin(s, 2, al - 1);
    let t1 = find_final_from(s, 2);
    assert(t1 == al - 1);
    assert(s.subrange(2, t1) =~= body_a);
    assert(escapes_for(body_a, 'm') == seq![AnsiEscape::Sgr(a)]) by {
        assert(escapes_of_sequence(enc_a) == seq![AnsiEscape::Sgr(a)]);
    }
    let st0 = init_state();
    let ap1 = apply_sgr(st0, a, 0);
    assert(insert_attr(Seq::<SgrAttribute>::empty(), a) == seq![a]);
    assert(ap1.0 == StyleState { active: seq![a], open_at: Option::Some(0int) });
    assert(ap1.1 =~= Seq::<SpanRec>::empty());
    let st1 = ap1.0;
    let stepped1 = apply_escapes(seq![AnsiEscape::Sgr(a)], 0, st0);
    assert(seq![AnsiEscape::Sgr(a)].drop_first() =~= Seq::<AnsiEscape>::empty());
    assert(apply_escapes(Seq::<AnsiEscape>::empty(), 0, st1) == (
        Seq::<SpanRec>::empty(),
        Seq::<PointRec>::empty(),
        st1,
    ));
    assert(stepped1.0 =~= Seq::<SpanRec>::empty());
    assert(stepped1.1 =~= Seq::<PointRec>::empty());
    assert(stepped1.2 == st1);

    // step two: the copied character
    let w = char_width(c);
    assert(w >= 1);
    assert(!(s[al] == '\x1b' && al + 1 < s.len() && s[al + 1] == '['));

    // step three: the Reset sequence
    assert(s[al + 1] == '\x1b' && s[al + 2] == '[');
    assert(!is_csi_final(s[al + 3]));
    assert(is_csi_final(s[al + 4]));
    assert forall|j: int| al + 3 <= j < al + 4 implies !is_csi_final(#[trigger] s[j]) by {}
    lemma_find_final_pin(s, al + 3, al + 4);
    let t2 = find_final_from(s, al + 3);
    assert(t2 == al + 4);
    assert(s.subrange(al + 3, al + 4) =~= seq!['0']);
    assert(spec_dec(0) == seq!['0']);
    assert(basic_sgr(seq!['0']) == Option::Some(SgrAttribute::Reset));
    assert(!is_ext_intro(seq!['0']));
    lemma_sgr_single(0, SgrAttribute::Reset);
    assert(escapes_for(seq!['0'], 'm') == seq![AnsiEscape::Sgr(SgrAttribute::Reset)]);
    let ap2 = apply_sgr(st1, SgrAttribute::Reset, w);
    let span = SpanRec { start: 0, end: w, codes: seq![a] };
    assert(ap2.1 =~= seq![span]);
    let st2 = ap2.0;
    assert(st2 == StyleState {
        active: Seq::<SgrAttribute>::empty(),
        open_at: Option::<int>::None,
    });
    let stepped2 = apply_escapes(seq![AnsiEscape::Sgr(SgrAttribute::Reset)], w, st1);
    assert(seq![AnsiEscape::Sgr(SgrAttribute::Reset)].drop_first() =~= Seq::<AnsiEscape>::empty());
    assert(apply_escapes(Seq::<AnsiEscape>::empty(), w, st2) == (
        Seq::<SpanRec>::empty(),
        Seq::<PointRec>::empty(),
        st2,
    ));
    assert(stepped2.0 =~= seq![span]);
    assert(stepped2.1 =~= Seq::<PointRec>::empty());
    assert(stepped2.2 == st2);

    // assemble the decode back to front
    let rest3 = decode_from(s, al + 5, w, st2);
    assert(rest3.text == Seq::<char>::empty());
    assert(rest3.spans == close_spans(st2, w));
    assert(close_spans(st2, w) =~= Seq::<SpanRec>::empty());
    assert(rest3.points == Seq::<PointRec>::empty());
    let rest2 = decode_from(s, al + 1, w, st1);
    assert(rest2.text == rest3.text);
    assert(rest2.spans == stepped2.0 + rest3.spans);
    assert(rest2.points == stepped2.1 + rest3.points);
    assert(rest2.spans =~= seq![span]);
    assert(rest2.points =~= Seq::<PointRec>::empty());
    let rest1 = decode_from(s, al, 0, st1);
    assert(rest1.text == seq![c] + rest2.text);
    assert(rest1.text =~= seq![c]);
    assert(rest1.spans == rest2.spans);
    assert(rest1.points == rest2.points);
    assert(spec_parse(s).text == rest1.text);
    assert(spec_parse(s).spans == stepped1.0 + rest1.spans);
    assert(spec_parse(s).spans =~= seq![span]);
    assert(spec_parse(s).points == stepped1.1 + rest1.points);
    assert(spec_parse(s).points =~= Seq::<PointRec>::empty());
}

} // verus!
