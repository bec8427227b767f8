//! The decoder: a single-pass scanner that strips ANSI escape sequences from
//! text and reconstructs the style spans and point events they describe.
//! Every function here is proved to return exactly what the model in
//! [`crate::decode`] says.

use vstd::prelude::*;
use vstd::slice::slice_subrange;
use vstd::string::StrSliceExecFns;
use vstd::utf8::char_is_scalar;
use vstd::utf8::encode_utf8;

use crate::text::push_char;
use crate::text::str_chars;

use crate::ansi_types::AnsiEscape;
use crate::ansi_types::Color;
use crate::ansi_types::CursorMove;
use crate::ansi_types::DeviceControl;
use crate::ansi_types::Erase;
use crate::ansi_types::EraseMode;
use crate::ansi_types::SgrAttribute;
use crate::attr_set::attrs_canonical;
use crate::attr_set::attrs_equal;
use crate::attr_set::copy_attrs;
use crate::attr_set::insert_attr;
use crate::attr_set::insert_attr_vec;
use crate::attr_set::lemma_insert_attr_canonical;
use crate::decimal::is_digit_exec;
use crate::decimal::parse_u16_chars;
use crate::decimal::parse_u8_chars;
use crate::decode::basic_sgr;
use crate::decode::bright_color;
use crate::decode::cursor_for;
use crate::decode::decode_from;
use crate::decode::lemma_encode_utf8_push;
use crate::decode::lemma_encode_utf8_skip_split;
use crate::decode::lemma_encode_utf8_skip_step;
use crate::decode::lemma_find_final_range;
use crate::decode::DecodeOut;
use crate::decode::device_for;
use crate::decode::erase_for;
use crate::decode::escapes_for;
use crate::decode::find_final_from;
use crate::decode::find_semi_from;
use crate::decode::is_csi_final;
use crate::decode::is_ext_intro;
use crate::decode::base_of;
use crate::decode::lemma_decode_from_wf;
use crate::decode::lemma_find_semi_pin;
use crate::decode::lemma_find_semi_range;
use crate::decode::nonempty_segments;
use crate::decode::or_one;
use crate::decode::sgr_attrs;
use crate::decode::slot_attr_for;
use crate::decode::std_color;
use crate::decode::apply_escapes;
use crate::decode::apply_sgr;
use crate::decode::char_width;
use crate::decode::close_spans;
use crate::decode::init_state;
use crate::decode::spec_parse;
use crate::decode::StyleState;
use crate::decode::PointRec;
use crate::decode::SpanRec;

verus! {

/// Represents a span of text affected by an ANSI escape code.
/// Used to annotate which range of the cleaned text is affected by a
/// particular set of codes.
#[derive(Debug, Clone, PartialEq, Eq)]
pub struct AnsiSpan {
    /// Byte offset in the cleaned text where the span starts.
    pub start: usize,
    /// Byte offset (exclusive) where the span ends.
    pub end: usize,
    /// The set of SGR attributes affecting this span.
    pub codes: Vec<SgrAttribute>,
}

/// Represents a point event (e.g., cursor move) at a position in the text.
#[derive(Debug, Clone, PartialEq, Eq)]
pub struct AnsiPoint {
    /// Byte offset in the cleaned text where the event occurs.
    pub pos: usize,
    /// The ANSI escape code at this position.
    pub code: AnsiEscape,
}

/// The full parse result: spans, points, and the cleaned text.
#[derive(Debug, Clone, PartialEq, Eq)]
pub struct AnsiParseResult {
    /// The text with escape codes removed.
    pub text: String,
    /// Codes affecting ranges of the text.
    pub spans: Vec<AnsiSpan>,
    /// Codes at specific positions in the text.
    pub points: Vec<AnsiPoint>,
}

/// The model record a span abstracts to.
pub open spec fn abs_span(s: AnsiSpan) -> SpanRec {
    SpanRec { start: s.start as int, end: s.end as int, codes: s.codes@ }
}

pub open spec fn abs_spans(s: Seq<AnsiSpan>) -> Seq<SpanRec> {
    s.map_values(|x: AnsiSpan| abs_span(x))
}

/// The model record a point abstracts to.
pub open spec fn abs_point(p: AnsiPoint) -> PointRec {
    PointRec { pos: p.pos as int, code: p.code }
}

pub open spec fn abs_points(s: Seq<AnsiPoint>) -> Seq<PointRec> {
    s.map_values(|x: AnsiPoint| abs_point(x))
}

/// True when an escape sequence opens at `pos`: ESC immediately followed
/// by `[`.
pub open spec fn is_introducer(s: Seq<char>, pos: int) -> bool {
    &&& 0 <= pos
    &&& pos + 1 < s.len()
    &&& s[pos] == '\x1b'
    &&& s[pos + 1] == '['
}

/// Scan for the CSI final byte, from `from` on.
fn find_final(cs: &[char], from: usize) -> (t: usize)
    requires
        from <= cs@.len(),
    ensures
        t as int == find_final_from(cs@, from as int),
        from <= t <= cs@.len(),
{
    let mut i: usize = from;
    while i < cs.len()
        invariant
            from <= i <= cs@.len(),
            find_final_from(cs@, from as int) == find_final_from(cs@, i as int),
        decreases cs@.len() - i,
    {
        let c = cs[i];
        if '\u{40}' <= c && c <= '\u{7e}' {
            proof {
                assert(is_csi_final(cs@[i as int]));
            }
            return i;
        }
        proof {
            assert(!is_csi_final(cs@[i as int]));
        }
        i += 1;
    }
    i
}

/// Scan for the next `;`, from `from` on.
fn find_semi(cs: &[char], from: usize) -> (t: usize)
    requires
        from <= cs@.len(),
    ensures
        t as int == find_semi_from(cs@, from as int),
        from <= t <= cs@.len(),
{
    let mut i: usize = from;
    while i < cs.len()
        invariant
            from <= i <= cs@.len(),
            find_semi_from(cs@, from as int) == find_semi_from(cs@, i as int),
        decreases cs@.len() - i,
    {
        if cs[i] == ';' {
            return i;
        }
        i += 1;
    }
    i
}

proof fn lemma_find_semi_shift(s: Seq<char>, i: int)
    requires
        0 <= i <= s.len(),
    ensures
        find_semi_from(s.skip(i), 0) == find_semi_from(s, i) - i,
{
    let k = find_semi_from(s, i);
    lemma_find_semi_range(s, i);
    let t = s.skip(i);
    assert forall|j: int| 0 <= j < k - i implies #[trigger] t[j] != ';' by {
        assert(t[j] == s[j + i]);
    }
    if k < s.len() {
        assert(t[k - i] == s[k]);
    }
    lemma_find_semi_pin(t, 0, k - i);
}

/// The segments a list of index pairs selects from the parameter characters.
pub open spec fn seg_views(s: Seq<char>, ps: Seq<(usize, usize)>) -> Seq<Seq<char>> {
    ps.map_values(|p: (usize, usize)| s.subrange(p.0 as int, p.1 as int))
}

/// The non-empty `;`-separated segments of the parameter characters, as
/// index pairs into the slice.
fn split_segments(params: &[char]) -> (r: Vec<(usize, usize)>)
    ensures
        seg_views(params@, r@) == nonempty_segments(params@),
        forall|q: int| 0 <= q < r@.len() ==> 0 <= #[trigger] r@[q].0 < r@[q].1 <= params@.len(),
{
    let mut r: Vec<(usize, usize)> = Vec::new();
    let mut i: usize = 0;
    proof {
        assert(params@.skip(0) =~= params@);
        assert(seg_views(params@, r@) =~~= Seq::<Seq<char>>::empty());
        assert(nonempty_segments(params@) =~~= seg_views(params@, r@) + nonempty_segments(
            params@.skip(0),
        ));
    }
    while i < params.len()
        invariant
            0 <= i <= params@.len(),
            forall|q: int| 0 <= q < r@.len() ==> 0 <= #[trigger] r@[q].0 < r@[q].1 <= params@.len(),
            nonempty_segments(params@) =~~= seg_views(params@, r@) + nonempty_segments(
                params@.skip(i as int),
            ),
        decreases params@.len() - i,
    {
        let k = find_semi(params, i);
        proof {
            lemma_find_semi_shift(params@, i as int);
            lemma_find_semi_range(params@, i as int);
        }
        let ghost t = params@.skip(i as int);
        let ghost pre = r@;
        if k == params.len() {
            r.push((i, k));
            proof {
                assert(t.len() > 0);
                assert(find_semi_from(t, 0) == t.len());
                assert(nonempty_segments(t) == seq![t]);
                assert(t =~= params@.subrange(i as int, params@.len() as int));
                assert(seg_views(params@, r@) =~~= seg_views(params@, pre).push(t));
                assert(params@.skip(params@.len() as int) =~= Seq::<char>::empty());
                assert(nonempty_segments(Seq::<char>::empty()) == Seq::<Seq<char>>::empty());
                assert(nonempty_segments(params@) =~~= seg_views(params@, r@)
                    + nonempty_segments(params@.skip(params@.len() as int)));
            }
            i = params.len();
        } else if k == i {
            proof {
                assert(find_semi_from(t, 0) == 0);
                assert(t.len() > 0);
                assert(nonempty_segments(t) == nonempty_segments(t.skip(1)));
                assert(t.skip(1) =~= params@.skip(i + 1));
            }
            i = k + 1;
        } else {
            r.push((i, k));
            proof {
                let kk = k - i as int;
                assert(find_semi_from(t, 0) == kk);
                assert(0 < kk < t.len());
                assert(nonempty_segments(t) == seq![t.take(kk)] + nonempty_segments(
                    t.skip(kk + 1),
                ));
                assert(t.take(kk) =~= params@.subrange(i as int, k as int));
                assert(t.skip(kk + 1) =~= params@.skip(k + 1));
                assert(seg_views(params@, r@) =~~= seg_views(params@, pre).push(
                    params@.subrange(i as int, k as int),
                ));
                assert(nonempty_segments(params@) =~~= seg_views(params@, r@)
                    + nonempty_segments(params@.skip(k + 1)));
            }
            i = k + 1;
        }
    }
    proof {
        assert(params@.skip(i as int) =~= Seq::<char>::empty());
        assert(nonempty_segments(Seq::<char>::empty()) == Seq::<Seq<char>>::empty());
        assert(seg_views(params@, r@) =~~= nonempty_segments(params@));
    }
    r
}

/// Whether the segment is exactly the one-character sequence `c0`.
fn seg_eq1(params: &[char], s0: usize, e0: usize, c0: char) -> (r: bool)
    requires
        s0 <= e0 <= params@.len(),
    ensures
        r == (params@.subrange(s0 as int, e0 as int) == seq![c0]),
{
    let ghost seg = params@.subrange(s0 as int, e0 as int);
    if e0 - s0 == 1 {
        let eqv = params[s0] == c0;
        proof {
            if eqv {
                assert(seg =~= seq![c0]);
            } else {
                assert(seg[0] != seq![c0][0]);
            }
        }
        eqv
    } else {
        proof {
            assert(seg.len() != seq![c0].len());
        }
        false
    }
}

/// Whether the segment is exactly the two-character sequence `c0 c1`.
fn seg_eq2(params: &[char], s0: usize, e0: usize, c0: char, c1: char) -> (r: bool)
    requires
        s0 <= e0 <= params@.len(),
    ensures
        r == (params@.subrange(s0 as int, e0 as int) == seq![c0, c1]),
{
    let ghost seg = params@.subrange(s0 as int, e0 as int);
    if e0 - s0 == 2 {
        let eqv = params[s0] == c0 && params[s0 + 1] == c1;
        proof {
            if eqv {
                assert(seg =~= seq![c0, c1]);
            } else {
                assert(seg[0] != seq![c0, c1][0] || seg[1] != seq![c0, c1][1]);
            }
        }
        eqv
    } else {
        proof {
            assert(seg.len() != seq![c0, c1].len());
        }
        false
    }
}

/// The named color of the standard range, by final digit.
fn std_color_of(d: u8) -> (c: Color)
    requires
        d <= 7,
    ensures
        c == std_color(d as int),
{
    match d {
        0 => Color::Black,
        1 => Color::Red,
        2 => Color::Green,
        3 => Color::Yellow,
        4 => Color::Blue,
        5 => Color::Magenta,
        6 => Color::Cyan,
        _ => Color::White,
    }
}

/// The named color of the bright range, by final digit.
fn bright_color_of(d: u8) -> (c: Color)
    requires
        d <= 7,
    ensures
        c == bright_color(d as int),
{
    match d {
        0 => Color::BrightBlack,
        1 => Color::BrightRed,
        2 => Color::BrightGreen,
        3 => Color::BrightYellow,
        4 => Color::BrightBlue,
        5 => Color::BrightMagenta,
        6 => Color::BrightCyan,
        _ => Color::BrightWhite,
    }
}

/// The attribute directly named by one segment, mirroring [`basic_sgr`].
fn basic_sgr_of(params: &[char], s0: usize, e0: usize) -> (r: Option<SgrAttribute>)
    requires
        s0 <= e0 <= params@.len(),
    ensures
        r == basic_sgr(params@.subrange(s0 as int, e0 as int)),
{
    let ghost seg = params@.subrange(s0 as int, e0 as int);
    let n = e0 - s0;
    if n == 1 {
        let c = params[s0];
        proof {
            assert(seg[0] == c);
        }
        if c == '0' {
            Option::Some(SgrAttribute::Reset)
        } else if c == '1' {
            Option::Some(SgrAttribute::Bold)
        } else if c == '2' {
            Option::Some(SgrAttribute::Faint)
        } else if c == '3' {
            Option::Some(SgrAttribute::Italic)
        } else if c == '4' {
            Option::Some(SgrAttribute::Underline)
        } else if c == '5' {
            Option::Some(SgrAttribute::BlinkSlow)
        } else if c == '6' {
            Option::Some(SgrAttribute::BlinkRapid)
        } else if c == '7' {
            Option::Some(SgrAttribute::Reverse)
        } else if c == '8' {
            Option::Some(SgrAttribute::Conceal)
        } else if c == '9' {
            Option::Some(SgrAttribute::CrossedOut)
        } else {
            Option::None
        }
    } else if n == 2 {
        let a = params[s0];
        let b = params[s0 + 1];
        proof {
            assert(seg[0] == a && seg[1] == b);
        }
        if !is_digit_exec(b) {
            Option::None
        } else {
            let d = (b as u32 - 48) as u8;
            if a == '3' && d <= 7 {
                Option::Some(SgrAttribute::Foreground(std_color_of(d)))
            } else if a == '9' && d <= 7 {
                Option::Some(SgrAttribute::Foreground(bright_color_of(d)))
            } else if a == '4' && d <= 7 {
                Option::Some(SgrAttribute::Background(std_color_of(d)))
            } else {
                Option::None
            }
        }
    } else if n == 3 {
        let a = params[s0];
        let b = params[s0 + 1];
        let c = params[s0 + 2];
        proof {
            assert(seg[0] == a && seg[1] == b && seg[2] == c);
        }
        if a == '1' && b == '0' && is_digit_exec(c) {
            let d = (c as u32 - 48) as u8;
            if d <= 7 {
                Option::Some(SgrAttribute::Background(bright_color_of(d)))
            } else {
                Option::None
            }
        } else {
            Option::None
        }
    } else {
        Option::None
    }
}

/// Parse SGR parameters (e.g., `1;31`) into the attributes they name.
#[verifier::rlimit(40)]
fn parse_sgr(params: &[char]) -> (r: Vec<SgrAttribute>)
    ensures
        r@ == sgr_attrs(nonempty_segments(params@)),
{
    let segs = split_segments(params);
    let ghost full = nonempty_segments(params@);
    let mut r: Vec<SgrAttribute> = Vec::new();
    let mut j: usize = 0;
    proof {
        assert(full.skip(0) =~= full);
        assert(sgr_attrs(full) =~= r@ + sgr_attrs(full.skip(0)));
    }
    while j < segs.len()
        invariant
            0 <= j <= segs@.len(),
            full == seg_views(params@, segs@),
            full == nonempty_segments(params@),
            forall|q: int| 0 <= q < segs@.len() ==> 0 <= #[trigger] segs@[q].0 < segs@[q].1
                <= params@.len(),
            sgr_attrs(full) =~= r@ + sgr_attrs(full.skip(j as int)),
        decreases segs@.len() - j,
    {
        let ghost rem = full.skip(j as int);
        proof {
            assert(rem[0] == full[j as int]);
            assert(full[j as int] == params@.subrange(
                segs@[j as int].0 as int,
                segs@[j as int].1 as int,
            ));
        }
        let p = segs[j];
        let s0: usize = p.0;
        let e0: usize = p.1;
        let is38 = seg_eq2(params, s0, e0, '3', '8');
        let is48 = seg_eq2(params, s0, e0, '4', '8');
        let is58 = seg_eq2(params, s0, e0, '5', '8');
        if is38 || is48 || is58 {
            proof {
                assert(is_ext_intro(rem[0]));
            }
            if segs.len() - j == 1 {
                proof {
                    assert(rem.len() == 1);
                    assert(sgr_attrs(rem) == Seq::<SgrAttribute>::empty());
                    assert(full.skip(segs@.len() as int) =~= Seq::<Seq<char>>::empty());
                    assert(sgr_attrs(Seq::<Seq<char>>::empty()) == Seq::<SgrAttribute>::empty());
                    assert(sgr_attrs(full) =~= r@ + sgr_attrs(full.skip(segs@.len() as int)));
                }
                j = segs.len();
            } else {
                let p1 = segs[j + 1];
                proof {
                    assert(rem[1] == full[j + 1]);
                }
                let mode5 = seg_eq1(params, p1.0, p1.1, '5');
                let mode2 = seg_eq1(params, p1.0, p1.1, '2');
                if mode5 {
                    if segs.len() - j > 2 {
                        let p2 = segs[j + 2];
                        proof {
                            assert(rem[2] == full[j + 2]);
                            assert(rem.skip(3) =~= full.skip(j + 3));
                        }
                        let v = parse_u8_chars(slice_subrange(params, p2.0, p2.1));
                        match v {
                            Option::Some(val) => {
                                let color = Color::AnsiValue(val);
                                let attr = if is38 {
                                    SgrAttribute::Foreground(color)
                                } else if is48 {
                                    SgrAttribute::Background(color)
                                } else {
                                    SgrAttribute::UnderlineColor(color)
                                };
                                proof {
                                    assert(attr == slot_attr_for(rem[0], color));
                                }
                                r.push(attr);
                            },
                            Option::None => {},
                        }
                        j += 3;
                    } else {
                        proof {
                            assert(rem.len() == 2);
                            assert(sgr_attrs(rem) == Seq::<SgrAttribute>::empty());
                            assert(full.skip(segs@.len() as int) =~= Seq::<Seq<char>>::empty());
                            assert(sgr_attrs(Seq::<Seq<char>>::empty())
                                == Seq::<SgrAttribute>::empty());
                        }
                        j = segs.len();
                    }
                } else if mode2 {
                    if segs.len() - j > 4 {
                        let p2 = segs[j + 2];
                        let p3 = segs[j + 3];
                        let p4 = segs[j + 4];
                        proof {
                            assert(rem[2] == full[j + 2]);
                            assert(rem[3] == full[j + 3]);
                            assert(rem[4] == full[j + 4]);
                            assert(rem.skip(5) =~= full.skip(j + 5));
                        }
                        let rv = parse_u8_chars(slice_subrange(params, p2.0, p2.1));
                        let gv = parse_u8_chars(slice_subrange(params, p3.0, p3.1));
                        let bv = parse_u8_chars(slice_subrange(params, p4.0, p4.1));
                        match (rv, gv, bv) {
                            (Option::Some(rr), Option::Some(gg), Option::Some(bb)) => {
                                let color = Color::Rgb24 { r: rr, g: gg, b: bb };
                                let attr = if is38 {
                                    SgrAttribute::Foreground(color)
                                } else if is48 {
                                    SgrAttribute::Background(color)
                                } else {
                                    SgrAttribute::UnderlineColor(color)
                                };
                                proof {
                                    assert(attr == slot_attr_for(rem[0], color));
                                }
                                r.push(attr);
                            },
                            _ => {},
                        }
                        j += 5;
                    } else {
                        proof {
                            assert(2 <= rem.len() < 5);
                            assert(sgr_attrs(rem) == Seq::<SgrAttribute>::empty());
                            assert(full.skip(segs@.len() as int) =~= Seq::<Seq<char>>::empty());
                            assert(sgr_attrs(Seq::<Seq<char>>::empty())
                                == Seq::<SgrAttribute>::empty());
                        }
                        j = segs.len();
                    }
                } else {
                    proof {
                        assert(rem.skip(2) =~= full.skip(j + 2));
                        assert(sgr_attrs(rem) == sgr_attrs(full.skip(j + 2)));
                    }
                    j += 2;
                }
            }
        } else {
            proof {
                assert(!is_ext_intro(rem[0]));
            }
            let b = basic_sgr_of(params, s0, e0);
            proof {
                assert(rem.skip(1) =~= full.skip(j + 1));
            }
            match b {
                Option::Some(a) => {
                    r.push(a);
                },
                Option::None => {},
            }
            j += 1;
        }
    }
    proof {
        assert(full.skip(j as int) =~= Seq::<Seq<char>>::empty());
        assert(sgr_attrs(Seq::<Seq<char>>::empty()) == Seq::<SgrAttribute>::empty());
        assert(r@ =~= sgr_attrs(full));
    }
    r
}

/// The count carried by a cursor parameter, defaulting to one.
fn or_one_exec(o: Option<u16>) -> (r: u16)
    ensures
        r == or_one(o),
{
    match o {
        Option::Some(v) => v,
        Option::None => 1,
    }
}

/// Parse cursor movement codes.
fn parse_cursor(params: &[char], fin: char) -> (r: Option<CursorMove>)
    ensures
        r == cursor_for(params@, fin),
{
    if fin == 'A' {
        Option::Some(CursorMove::Up(or_one_exec(parse_u16_chars(params))))
    } else if fin == 'B' {
        Option::Some(CursorMove::Down(or_one_exec(parse_u16_chars(params))))
    } else if fin == 'C' {
        Option::Some(CursorMove::Forward(or_one_exec(parse_u16_chars(params))))
    } else if fin == 'D' {
        Option::Some(CursorMove::Backward(or_one_exec(parse_u16_chars(params))))
    } else if fin == 'E' {
        Option::Some(CursorMove::NextLine(or_one_exec(parse_u16_chars(params))))
    } else if fin == 'F' {
        Option::Some(CursorMove::PreviousLine(or_one_exec(parse_u16_chars(params))))
    } else if fin == 'G' {
        Option::Some(CursorMove::HorizontalAbsolute(or_one_exec(parse_u16_chars(params))))
    } else if fin == 'H' || fin == 'f' {
        let k = find_semi(params, 0);
        let row_slice = slice_subrange(params, 0, k);
        proof {
            assert(row_slice@ =~= params@.take(k as int));
        }
        let row = or_one_exec(parse_u16_chars(row_slice));
        let col: u16 = if k == params.len() {
            1
        } else {
            let k2 = find_semi(params, k + 1);
            or_one_exec(parse_u16_chars(slice_subrange(params, k + 1, k2)))
        };
        Option::Some(CursorMove::Position { row, col })
    } else {
        Option::None
    }
}

/// Parse erase codes.
fn parse_erase(params: &[char], fin: char) -> (r: Option<Erase>)
    ensures
        r == erase_for(params@, fin),
{
    let mode: Option<EraseMode> = if params.len() == 0 {
        Option::Some(EraseMode::ToEnd)
    } else if params.len() == 1 && params[0] == '0' {
        proof {
            assert(params@ =~= seq!['0']);
        }
        Option::Some(EraseMode::ToEnd)
    } else if params.len() == 1 && params[0] == '1' {
        proof {
            assert(params@ =~= seq!['1']);
        }
        Option::Some(EraseMode::ToStart)
    } else if params.len() == 1 && params[0] == '2' {
        proof {
            assert(params@ =~= seq!['2']);
        }
        Option::Some(EraseMode::All)
    } else {
        proof {
            assert(params@ != seq!['0'] && params@ != seq!['1'] && params@ != seq!['2']) by {
                if params@.len() == 1 {
                    assert(params@[0] != '0' && params@[0] != '1' && params@[0] != '2');
                }
            }
        }
        Option::None
    };
    match mode {
        Option::Some(m) => {
            if fin == 'J' {
                Option::Some(Erase::Display(m))
            } else if fin == 'K' {
                Option::Some(Erase::Line(m))
            } else {
                Option::None
            }
        },
        Option::None => Option::None,
    }
}

/// Parse device control codes (save/restore cursor, hide/show cursor).
fn parse_device(params: &[char], fin: char) -> (r: Option<DeviceControl>)
    ensures
        r == device_for(params@, fin),
{
    if params.len() == 0 {
        if fin == 's' {
            Option::Some(DeviceControl::SaveCursor)
        } else if fin == 'u' {
            Option::Some(DeviceControl::RestoreCursor)
        } else {
            Option::None
        }
    } else {
        let q25 = params.len() == 3 && params[0] == '?' && params[1] == '2' && params[2] == '5';
        proof {
            if q25 {
                assert(params@ =~= seq!['?', '2', '5']);
            } else {
                assert(params@ != seq!['?', '2', '5']) by {
                    if params@.len() == 3 {
                        assert(params@[0] != '?' || params@[1] != '2' || params@[2] != '5');
                    }
                }
            }
        }
        if q25 && fin == 'l' {
            Option::Some(DeviceControl::HideCursor)
        } else if q25 && fin == 'h' {
            Option::Some(DeviceControl::ShowCursor)
        } else {
            Option::None
        }
    }
}

/// Parse the next ANSI escape sequence from position `pos`, if one opens
/// there.  Returns the escape values it yields and the number of characters
/// consumed; a sequence with no final byte consumes the whole tail and
/// yields nothing.
fn parse_next_escapes(cs: &Vec<char>, pos: usize) -> (r: Option<(Vec<AnsiEscape>, usize)>)
    requires
        pos < cs@.len(),
    ensures
        r is Some <==> is_introducer(cs@, pos as int),
        (match r {
            Option::Some(p) => {
                let t = find_final_from(cs@, pos + 2);
                &&& (t == cs@.len() ==> p.0@ == Seq::<AnsiEscape>::empty() && p.1 == cs@.len()
                    - pos)
                &&& (t < cs@.len() ==> p.0@ == escapes_for(cs@.subrange(pos + 2, t), cs@[t])
                    && p.1 == t + 1 - pos)
                &&& pos + p.1 <= cs@.len()
                &&& p.1 >= 2
            },
            Option::None => true,
        }),
{
    let n = cs.len();
    if n - pos < 2 {
        return Option::None;
    }
    if !(cs[pos] == '\x1b' && cs[pos + 1] == '[') {
        return Option::None;
    }
    let t = find_final(cs.as_slice(), pos + 2);
    if t == cs.len() {
        Option::Some((Vec::new(), cs.len() - pos))
    } else {
        let fin = cs[t];
        let params = slice_subrange(cs.as_slice(), pos + 2, t);
        let mut es: Vec<AnsiEscape> = Vec::new();
        if fin == 'm' {
            let attrs = parse_sgr(params);
            let mut q: usize = 0;
            while q < attrs.len()
                invariant
                    0 <= q <= attrs@.len(),
                    es@.len() == q,
                    forall|w: int| 0 <= w < q ==> #[trigger] es@[w] == AnsiEscape::Sgr(attrs@[w]),
                decreases attrs@.len() - q,
            {
                es.push(AnsiEscape::Sgr(attrs[q]));
                q += 1;
            }
            proof {
                assert(es@ =~= sgr_attrs(nonempty_segments(params@)).map_values(
                    |a: SgrAttribute| AnsiEscape::Sgr(a),
                ));
            }
        } else if let Option::Some(m) = parse_cursor(params, fin) {
            es.push(AnsiEscape::Cursor(m));
            proof {
                assert(es@ =~= seq![AnsiEscape::Cursor(m)]);
            }
        } else if let Option::Some(e) = parse_erase(params, fin) {
            es.push(AnsiEscape::Erase(e));
            proof {
                assert(es@ =~= seq![AnsiEscape::Erase(e)]);
            }
        } else if let Option::Some(d) = parse_device(params, fin) {
            es.push(AnsiEscape::Device(d));
            proof {
                assert(es@ =~= seq![AnsiEscape::Device(d)]);
            }
        }
        proof {
            assert(es@ =~= escapes_for(cs@.subrange(pos + 2, t as int), cs@[t as int]));
        }
        Option::Some((es, t + 1 - pos))
    }
}

/// The UTF-8 width of a character, from its code point.
fn char_width_of(c: char) -> (w: u8)
    ensures
        w as int == char_width(c),
        1 <= w <= 4,
{
    let u = c as u32;
    let w: u8 = if u < 0x80 {
        1
    } else if u < 0x800 {
        2
    } else if u < 0x10000 {
        3
    } else {
        4
    };
    proof {
        char_is_scalar(c);
    }
    w
}

/// The machine state the executable scanner's variables abstract to.
pub open spec fn state_abs(active: Seq<SgrAttribute>, open_at: Option<usize>) -> StyleState {
    StyleState {
        active: active,
        open_at: match open_at {
            Option::Some(v) => Option::Some(v as int),
            Option::None => Option::None,
        },
    }
}

proof fn lemma_abs_points_push(s: Seq<AnsiPoint>, x: AnsiPoint)
    ensures
        abs_points(s.push(x)) == abs_points(s).push(abs_point(x)),
{
    assert(abs_points(s.push(x)) =~~= abs_points(s).push(abs_point(x)));
}

/// Feed one sequence's escape values through the style machine at byte
/// offset `out_len`, recording spans and points.
fn apply_escape_list(
    es: &Vec<AnsiEscape>,
    out_len: usize,
    active: &mut Vec<SgrAttribute>,
    open_at: &mut Option<usize>,
    spans: &mut Vec<AnsiSpan>,
    points: &mut Vec<AnsiPoint>,
)
    requires
        attrs_canonical(old(active)@),
        ((*old(open_at)) is Some) <==> old(active)@.len() > 0,
        match *old(open_at) {
            Option::Some(v) => v <= out_len,
            Option::None => true,
        },
    ensures
        ({
            let stepped = apply_escapes(es@, out_len as int, state_abs(old(active)@, *old(open_at)));
            &&& abs_spans(final(spans)@) == abs_spans(old(spans)@) + stepped.0
            &&& abs_points(final(points)@) == abs_points(old(points)@) + stepped.1
            &&& state_abs(final(active)@, *final(open_at)) == stepped.2
        }),
        attrs_canonical(final(active)@),
        ((*final(open_at)) is Some) <==> final(active)@.len() > 0,
        match *final(open_at) {
            Option::Some(v) => v <= out_len,
            Option::None => true,
        },
{
    let ghost st0 = state_abs(active@, *open_at);
    let ghost spans0 = spans@;
    let ghost points0 = points@;
    let ghost at = out_len as int;
    let mut k: usize = 0;
    proof {
        assert(es@.skip(0) =~= es@);
        assert(abs_spans(spans0) + apply_escapes(es@, at, st0).0 =~~= abs_spans(spans@)
            + apply_escapes(es@.skip(0), at, st0).0);
        assert(abs_points(points0) + apply_escapes(es@, at, st0).1 =~~= abs_points(points@)
            + apply_escapes(es@.skip(0), at, st0).1);
    }
    while k < es.len()
        invariant
            0 <= k <= es@.len(),
            attrs_canonical(active@),
            ((*open_at) is Some) <==> active@.len() > 0,
            match *open_at {
                Option::Some(v) => v <= out_len,
                Option::None => true,
            },
            at == out_len as int,
            ({
                let full = apply_escapes(es@, at, st0);
                let rest = apply_escapes(es@.skip(k as int), at, state_abs(active@, *open_at));
                &&& abs_spans(spans0) + full.0 == abs_spans(spans@) + rest.0
                &&& abs_points(points0) + full.1 == abs_points(points@) + rest.1
                &&& full.2 == rest.2
            }),
        decreases es@.len() - k,
    {
        let ghost st_now = state_abs(active@, *open_at);
        let ghost rem = es@.skip(k as int);
        proof {
            assert(rem[0] == es@[k as int]);
            assert(rem.drop_first() =~= es@.skip(k + 1));
        }
        let e = es[k];
        match e {
            AnsiEscape::Sgr(a) => {
                let ghost ap = apply_sgr(st_now, a, at);
                let is_reset = matches!(a, SgrAttribute::Reset);
                let new_active: Vec<SgrAttribute> = if is_reset {
                    Vec::new()
                } else {
                    insert_attr_vec(active, a)
                };
                proof {
                    assert(new_active@ == (if a == SgrAttribute::Reset {
                        Seq::<SgrAttribute>::empty()
                    } else {
                        insert_attr(st_now.active, a)
                    }));
                    if !is_reset {
                        lemma_insert_attr_canonical(active@, a);
                    }
                }
                if !attrs_equal(&new_active, active) {
                    let ghost spans_pre = spans@;
                    match *open_at {
                        Option::Some(start) => {
                            if start != out_len {
                                let codes = copy_attrs(active);
                                spans.push(AnsiSpan { start, end: out_len, codes });
                            }
                        },
                        Option::None => {},
                    }
                    proof {
                        assert(abs_spans(spans@) =~~= abs_spans(spans_pre) + close_spans(
                            st_now,
                            at,
                        ));
                    }
                    *open_at = if new_active.len() > 0 {
                        Option::Some(out_len)
                    } else {
                        Option::None
                    };
                    *active = new_active;
                    proof {
                        assert(state_abs(active@, *open_at) == ap.0);
                        assert(ap.1 == close_spans(st_now, at));
                    }
                } else {
                    proof {
                        assert(ap == (st_now, Seq::<SpanRec>::empty()));
                        assert(abs_spans(spans@) =~~= abs_spans(spans@) + ap.1);
                    }
                }
                proof {
                    let rest_next = apply_escapes(es@.skip(k + 1), at, state_abs(active@, *open_at));
                    assert(apply_escapes(rem, at, st_now).0 =~~= ap.1 + rest_next.0);
                    assert(apply_escapes(rem, at, st_now).1 =~~= rest_next.1);
                    assert((abs_spans(spans0) + apply_escapes(es@, at, st0).0) =~~= abs_spans(
                        spans@,
                    ) + rest_next.0);
                }
            },
            _ => {
                let ghost points_pre = points@;
                points.push(AnsiPoint { pos: out_len, code: e });
                proof {
                    lemma_abs_points_push(points_pre, AnsiPoint { pos: out_len, code: e });
                    let rest_next = apply_escapes(es@.skip(k + 1), at, st_now);
                    assert(apply_escapes(rem, at, st_now).1 =~~= seq![
                        PointRec { pos: at, code: e },
                    ] + rest_next.1);
                    assert((abs_points(points0) + apply_escapes(es@, at, st0).1) =~~= abs_points(
                        points@,
                    ) + rest_next.1);
                }
            },
        }
        k += 1;
    }
    proof {
        assert(es@.skip(es@.len() as int) =~= Seq::<AnsiEscape>::empty());
        assert(apply_escapes(Seq::<AnsiEscape>::empty(), at, state_abs(active@, *open_at)) == (
            Seq::<SpanRec>::empty(),
            Seq::<PointRec>::empty(),
            state_abs(active@, *open_at),
        ));
        let full = apply_escapes(es@, at, st0);
        assert(abs_spans(spans@) =~~= abs_spans(spans0) + full.0);
        assert(abs_points(points@) =~~= abs_points(points0) + full.1);
    }
}

/// Parses a string containing ANSI escape codes and produces annotated
/// results: the cleaned text, the style spans, and the point events.
pub struct AnsiParser<'a> {
    input: &'a str,
    pos: usize,
    output_pos: usize,
}

impl<'a> AnsiParser<'a> {
    /// The characters of the input being parsed.
    pub closed spec fn input_chars(self) -> Seq<char> {
        self.input@
    }

    /// The character position the scan has reached.
    pub closed spec fn scan_pos(self) -> int {
        self.pos as int
    }

    /// The byte offset reached in the cleaned text.
    pub closed spec fn out_offset(self) -> int {
        self.output_pos as int
    }

    /// The parser's well-formedness: the scan position lies within the
    /// input, and the cleaned-text offset plus what the unscanned tail can
    /// still contribute stays within the input's byte length.
    pub closed spec fn wf(self) -> bool {
        &&& 0 <= self.pos <= self.input@.len()
        &&& self.output_pos + encode_utf8(self.input@.skip(self.pos as int)).len() <= encode_utf8(
            self.input@,
        ).len()
    }

    /// Create a new parser for the given input.
    pub fn new(input: &'a str) -> (r: Self)
        ensures
            r.input_chars() == input@,
            r.scan_pos() == 0,
            r.out_offset() == 0,
            r.wf(),
    {
        let r = Self { input, pos: 0, output_pos: 0 };
        proof {
            assert(input@.skip(0) =~= input@);
        }
        r
    }

    /// Main entry point: parses the input and returns an annotated parse
    /// result, exactly the one the decode model describes from the
    /// parser's current position.
    pub fn parse_annotated(&mut self) -> (r: AnsiParseResult)
        requires
            old(self).wf(),
        ensures
            final(self).wf(),
            final(self).input_chars() == old(self).input_chars(),
            final(self).scan_pos() == old(self).input_chars().len(),
            ({
                let out = decode_from(
                    old(self).input_chars(),
                    old(self).scan_pos(),
                    old(self).out_offset(),
                    init_state(),
                );
                &&& r.text@ == out.text
                &&& abs_spans(r.spans@) == out.spans
                &&& abs_points(r.points@) == out.points
            }),
            forall|i: int|
                0 <= i < r.spans@.len() ==> old(self).out_offset() <= (
                #[trigger] r.spans@[i]).start < r.spans@[i].end <= old(self).out_offset()
                    + encode_utf8(r.text@).len(),
            forall|i: int|
                0 <= i < r.spans@.len() ==> (#[trigger] r.spans@[i]).codes@.len() > 0
                    && attrs_canonical(r.spans@[i].codes@),
            forall|i: int, j: int|
                0 <= i < j < r.spans@.len() ==> (#[trigger] r.spans@[i]).end <= (
                #[trigger] r.spans@[j]).start,
            forall|i: int|
                0 <= i < r.points@.len() ==> old(self).out_offset() <= (
                #[trigger] r.points@[i]).pos <= old(self).out_offset() + encode_utf8(
                    r.text@,
                ).len(),
            forall|i: int, j: int|
                0 <= i < j < r.points@.len() ==> (#[trigger] r.points@[i]).pos <= (
                #[trigger] r.points@[j]).pos,
    {
        let ghost inp = self.input@;
        let ghost pos0 = self.pos as int;
        let ghost at0 = self.output_pos as int;
        let ghost target = decode_from(inp, pos0, at0, init_state());
        let cs: Vec<char> = str_chars(self.input);
        let n: usize = cs.len();
        let total: usize = self.input.as_bytes().len();
        proof {
            assert(total as int == encode_utf8(inp).len());
        }
        let mut cleaned: String = String::new();
        let mut spans: Vec<AnsiSpan> = Vec::new();
        let mut points: Vec<AnsiPoint> = Vec::new();
        let mut active: Vec<SgrAttribute> = Vec::new();
        let mut open_at: Option<usize> = Option::None;
        let mut pos: usize = self.pos;
        let mut out_len: usize = self.output_pos;
        proof {
            assert(state_abs(active@, open_at) == init_state());
            assert(encode_utf8(Seq::<char>::empty()) =~= Seq::<u8>::empty());
            let rest = decode_from(inp, pos as int, out_len as int, state_abs(active@, open_at));
            assert(target.text =~= cleaned@ + rest.text);
            assert(target.spans =~~= abs_spans(spans@) + rest.spans);
            assert(target.points =~~= abs_points(points@) + rest.points);
        }
        while pos < n
            invariant
                n == inp.len(),
                cs@ == inp,
                0 <= pos <= n,
                total as int == encode_utf8(inp).len(),
                out_len as int + encode_utf8(inp.skip(pos as int)).len() <= total as int,
                out_len as int == at0 + encode_utf8(cleaned@).len(),
                attrs_canonical(active@),
                (open_at is Some) <==> active@.len() > 0,
                match open_at {
                    Option::Some(v) => v <= out_len,
                    Option::None => true,
                },
                ({
                    let rest = decode_from(
                        inp,
                        pos as int,
                        out_len as int,
                        state_abs(active@, open_at),
                    );
                    &&& target.text == cleaned@ + rest.text
                    &&& target.spans == abs_spans(spans@) + rest.spans
                    &&& target.points == abs_points(points@) + rest.points
                }),
            decreases n - pos,
        {
            let ghost st = state_abs(active@, open_at);
            let ghost rest_pre = decode_from(inp, pos as int, out_len as int, st);
            let next = parse_next_escapes(&cs, pos);
            match next {
                Option::Some(pr) => {
                    let es = pr.0;
                    let consumed: usize = pr.1;
                    let ghost t_g = find_final_from(inp, pos + 2);
                    proof {
                        lemma_find_final_range(inp, pos + 2);
                    }
                    let ghost spans_pre = spans@;
                    let ghost points_pre = points@;
                    apply_escape_list(
                        &es,
                        out_len,
                        &mut active,
                        &mut open_at,
                        &mut spans,
                        &mut points,
                    );
                    proof {
                        let stepped = apply_escapes(es@, out_len as int, st);
                        if t_g == inp.len() {
                            assert(es@ =~= Seq::<AnsiEscape>::empty());
                            assert(stepped == (
                                Seq::<SpanRec>::empty(),
                                Seq::<PointRec>::empty(),
                                st,
                            ));
                            assert(abs_spans(spans@) =~~= abs_spans(spans_pre));
                            assert(abs_points(points@) =~~= abs_points(points_pre));
                            assert(rest_pre == DecodeOut {
                                text: Seq::<char>::empty(),
                                spans: close_spans(st, out_len as int),
                                points: Seq::<PointRec>::empty(),
                            });
                            assert(pos + consumed == n);
                            let rest_new = decode_from(
                                inp,
                                n as int,
                                out_len as int,
                                state_abs(active@, open_at),
                            );
                            assert(rest_new == rest_pre);
                            lemma_encode_utf8_skip_split(inp, pos as int, n as int);
                        } else {
                            let rest_new = decode_from(inp, t_g + 1, out_len as int, stepped.2);
                            assert(rest_pre.text == rest_new.text);
                            assert(rest_pre.spans == stepped.0 + rest_new.spans);
                            assert(rest_pre.points == stepped.1 + rest_new.points);
                            assert(pos + consumed == t_g + 1);
                            assert(abs_spans(spans@) == abs_spans(spans_pre) + stepped.0);
                            assert(abs_points(points@) == abs_points(points_pre) + stepped.1);
                            assert(state_abs(active@, open_at) == stepped.2);
                            assert(target.spans =~~= abs_spans(spans@) + rest_new.spans);
                            assert(target.points =~~= abs_points(points@) + rest_new.points);
                            lemma_encode_utf8_skip_split(inp, pos as int, t_g + 1);
                        }
                    }
                    pos += consumed;
                },
                Option::None => {
                    let c = cs[pos];
                    let ghost cleaned_pre = cleaned@;
                    push_char(&mut cleaned, c);
                    let w = char_width_of(c);
                    proof {
                        assert(!is_introducer(inp, pos as int));
                        lemma_encode_utf8_skip_step(inp, pos as int);
                        assert(out_len as int + w as int <= total as int);
                        lemma_encode_utf8_push(cleaned_pre, c);
                    }
                    out_len += w as usize;
                    pos += 1;
                    proof {
                        let rest_new = decode_from(
                            inp,
                            pos as int,
                            out_len as int,
                            state_abs(active@, open_at),
                        );
                        assert(rest_pre.text == seq![c] + rest_new.text);
                        assert(target.text =~= cleaned@ + rest_new.text);
                    }
                },
            }
        }
        let ghost st_end = state_abs(active@, open_at);
        proof {
            assert(pos as int == inp.len());
            let rest = decode_from(inp, pos as int, out_len as int, st_end);
            assert(rest == DecodeOut {
                text: Seq::<char>::empty(),
                spans: close_spans(st_end, out_len as int),
                points: Seq::<PointRec>::empty(),
            });
        }
        let ghost spans_pre = spans@;
        match open_at {
            Option::Some(start) => {
                if start != out_len {
                    let codes = copy_attrs(&active);
                    spans.push(AnsiSpan { start, end: out_len, codes });
                }
            },
            Option::None => {},
        }
        proof {
            assert(abs_spans(spans@) =~~= abs_spans(spans_pre) + close_spans(
                st_end,
                out_len as int,
            ));
            assert(target.text =~= cleaned@);
            assert(target.spans =~~= abs_spans(spans@));
            assert(target.points =~~= abs_points(points@));
        }
        self.pos = pos;
        self.output_pos = out_len;
        proof {
            assert(inp.skip(inp.len() as int) =~= Seq::<char>::empty());
            assert(encode_utf8(Seq::<char>::empty()) =~= Seq::<u8>::empty());
            lemma_decode_from_wf(inp, pos0, at0, init_state());
            assert(base_of(init_state(), at0) == at0);
            let out = decode_from(inp, pos0, at0, init_state());
            assert(out.text == cleaned@);
            assert(out.spans == abs_spans(spans@));
            assert(out.points == abs_points(points@));
            assert forall|i: int|
                0 <= i < spans@.len() implies at0 <= (#[trigger] spans@[i]).start
                && spans@[i].start < spans@[i].end && spans@[i].end <= at0 + encode_utf8(
                cleaned@,
            ).len() && spans@[i].codes@.len() > 0 && attrs_canonical(spans@[i].codes@) by {
                assert(out.spans[i] == abs_span(spans@[i]));
            }
            assert forall|i: int, j: int|
                0 <= i < j < spans@.len() implies (#[trigger] spans@[i]).end <= (
            #[trigger] spans@[j]).start by {
                assert(out.spans[i] == abs_span(spans@[i]));
                assert(out.spans[j] == abs_span(spans@[j]));
            }
            assert forall|i: int|
                0 <= i < points@.len() implies at0 <= (#[trigger] points@[i]).pos && points@[i].pos
                <= at0 + encode_utf8(cleaned@).len() by {
                assert(out.points[i] == abs_point(points@[i]));
            }
            assert forall|i: int, j: int|
                0 <= i < j < points@.len() implies (#[trigger] points@[i]).pos <= (
            #[trigger] points@[j]).pos by {
                assert(out.points[i] == abs_point(points@[i]));
                assert(out.points[j] == abs_point(points@[j]));
            }
        }
        AnsiParseResult { text: cleaned, spans, points }
    }
}

/// Convenience function for one-shot annotated parsing: the cleaned text
/// and all detected ANSI codes, exactly as the decode model describes.
pub fn parse_ansi_annotated(input: &str) -> (r: AnsiParseResult)
    ensures
        ({
            let out = spec_parse(input@);
            &&& r.text@ == out.text
            &&& abs_spans(r.spans@) == out.spans
            &&& abs_points(r.points@) == out.points
        }),
        forall|i: int|
            0 <= i < r.spans@.len() ==> 0 <= (#[trigger] r.spans@[i]).start < r.spans@[i].end
                <= encode_utf8(r.text@).len(),
        forall|i: int|
            0 <= i < r.spans@.len() ==> (#[trigger] r.spans@[i]).codes@.len() > 0
                && attrs_canonical(r.spans@[i].codes@),
        forall|i: int, j: int|
            0 <= i < j < r.spans@.len() ==> (#[trigger] r.spans@[i]).end <= (
            #[trigger] r.spans@[j]).start,
        forall|i: int|
            0 <= i < r.points@.len() ==> (#[trigger] r.points@[i]).pos <= encode_utf8(
                r.text@,
            ).len(),
        forall|i: int, j: int|
            0 <= i < j < r.points@.len() ==> (#[trigger] r.points@[i]).pos <= (
            #[trigger] r.points@[j]).pos,
{
    let mut parser = AnsiParser::new(input);
    parser.parse_annotated()
}

} // verus!
