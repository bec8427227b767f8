//! The decoder's mathematical model: a single recursive description of the
//! scan over the input, the classification of each CSI sequence, and the
//! style-merge state machine.  The executable parser in `ansi_interpreter`
//! proves that it returns exactly what [`decode_from`] describes.

use vstd::prelude::*;
use vstd::utf8::encode_scalar;
use vstd::utf8::encode_utf8;

use crate::ansi_types::AnsiEscape;
use crate::ansi_types::Color;
use crate::ansi_types::CursorMove;
use crate::ansi_types::DeviceControl;
use crate::ansi_types::Erase;
use crate::ansi_types::EraseMode;
use crate::ansi_types::SgrAttribute;
use crate::attr_set::attrs_canonical;
use crate::attr_set::insert_attr;
use crate::attr_set::lemma_insert_attr_canonical;
use crate::decimal::digit_val;
use crate::decimal::is_digit;
use crate::decimal::parse_u16_spec;
use crate::decimal::parse_u8_spec;

verus! {

/// The CSI final-byte range: the first character in `0x40..=0x7e` after the
/// introducer terminates the sequence.
pub open spec fn is_csi_final(c: char) -> bool {
    '\u{40}' <= c <= '\u{7e}'
}

/// The UTF-8 width of one character, which is how far a copied character
/// advances the byte offset into the cleaned text.
pub open spec fn char_width(c: char) -> int {
    encode_scalar(c as u32).len() as int
}

/// Index of the first CSI final byte at or after `i`, or `s.len()` if none.
pub open spec fn find_final_from(s: Seq<char>, i: int) -> int
    decreases s.len() - i,
{
    if i < 0 || i >= s.len() {
        s.len() as int
    } else if is_csi_final(s[i]) {
        i
    } else {
        find_final_from(s, i + 1)
    }
}

pub proof fn lemma_find_final_range(s: Seq<char>, i: int)
    requires
        0 <= i <= s.len(),
    ensures
        i <= find_final_from(s, i) <= s.len(),
        find_final_from(s, i) < s.len() ==> is_csi_final(s[find_final_from(s, i)]),
        forall|j: int| i <= j < find_final_from(s, i) ==> !is_csi_final(#[trigger] s[j]),
    decreases s.len() - i,
{
    if i < s.len() && !is_csi_final(s[i]) {
        lemma_find_final_range(s, i + 1);
    }
}

/// Index of the first `;` at or after `i`, or `s.len()` if none.
pub open spec fn find_semi_from(s: Seq<char>, i: int) -> int
    decreases s.len() - i,
{
    if i < 0 || i >= s.len() {
        s.len() as int
    } else if s[i] == ';' {
        i
    } else {
        find_semi_from(s, i + 1)
    }
}

pub proof fn lemma_find_semi_range(s: Seq<char>, i: int)
    requires
        0 <= i <= s.len(),
    ensures
        i <= find_semi_from(s, i) <= s.len(),
        find_semi_from(s, i) < s.len() ==> s[find_semi_from(s, i)] == ';',
        forall|j: int| i <= j < find_semi_from(s, i) ==> #[trigger] s[j] != ';',
    decreases s.len() - i,
{
    if i < s.len() && s[i] != ';' {
        lemma_find_semi_range(s, i + 1);
    }
}

/// Pins down the scan results: a position with no match before it and a
/// match (or the end) at it is what the scan finds.
pub proof fn lemma_find_semi_pin(s: Seq<char>, i: int, k: int)
    requires
        0 <= i <= k <= s.len(),
        forall|j: int| i <= j < k ==> #[trigger] s[j] != ';',
        k < s.len() ==> s[k] == ';',
    ensures
        find_semi_from(s, i) == k,
    decreases k - i,
{
    if i < k {
        lemma_find_semi_pin(s, i + 1, k);
    }
}

pub proof fn lemma_find_final_pin(s: Seq<char>, i: int, k: int)
    requires
        0 <= i <= k <= s.len(),
        forall|j: int| i <= j < k ==> !is_csi_final(#[trigger] s[j]),
        k < s.len() ==> is_csi_final(s[k]),
    ensures
        find_final_from(s, i) == k,
    decreases k - i,
{
    if i < k {
        lemma_find_final_pin(s, i + 1, k);
    }
}

/// The `;`-separated parameter segments, empty segments discarded — the
/// shape the SGR classifier works over.
pub open spec fn nonempty_segments(s: Seq<char>) -> Seq<Seq<char>>
    decreases s.len(),
        via nonempty_segments_decreases
{
    let k = find_semi_from(s, 0);
    if k == s.len() {
        if s.len() == 0 {
            seq![]
        } else {
            seq![s]
        }
    } else if k == 0 {
        nonempty_segments(s.skip(1))
    } else {
        seq![s.take(k)] + nonempty_segments(s.skip(k + 1))
    }
}

#[via_fn]
proof fn nonempty_segments_decreases(s: Seq<char>) {
    lemma_find_semi_range(s, 0);
}

/// The named color for a final digit of the standard range (30-37, 40-47).
pub open spec fn std_color(d: int) -> Color {
    if d == 0 {
        Color::Black
    } else if d == 1 {
        Color::Red
    } else if d == 2 {
        Color::Green
    } else if d == 3 {
        Color::Yellow
    } else if d == 4 {
        Color::Blue
    } else if d == 5 {
        Color::Magenta
    } else if d == 6 {
        Color::Cyan
    } else {
        Color::White
    }
}

/// The named color for a final digit of the bright range (90-97, 100-107).
pub open spec fn bright_color(d: int) -> Color {
    if d == 0 {
        Color::BrightBlack
    } else if d == 1 {
        Color::BrightRed
    } else if d == 2 {
        Color::BrightGreen
    } else if d == 3 {
        Color::BrightYellow
    } else if d == 4 {
        Color::BrightBlue
    } else if d == 5 {
        Color::BrightMagenta
    } else if d == 6 {
        Color::BrightCyan
    } else {
        Color::BrightWhite
    }
}

/// The SGR attribute named directly by one parameter segment: the single
/// digits 0-9 and the named color codes.  The match is exact — a segment
/// with a redundant leading zero names nothing.
pub open spec fn basic_sgr(seg: Seq<char>) -> Option<SgrAttribute> {
    if seg.len() == 1 {
        let c = seg[0];
        if c == '0' {
            Option::Some(SgrAttribute::Reset)
        } else if c == '1' {
            Option::Some(SgrAttribute::Bold)
        } else if c == '2' {
            Option::Some(SgrAttribute::Faint)
        } else if c == '3' {
            Option::Some(SgrAttribute::Italic)
        } else if c == '4' {
            Option::Some(SgrAttribute::Underline)
        } else if c == '5' {
            Option::Some(SgrAttribute::BlinkSlow)
        } else if c == '6' {
            Option::Some(SgrAttribute::BlinkRapid)
        } else if c == '7' {
            Option::Some(SgrAttribute::Reverse)
        } else if c == '8' {
            Option::Some(SgrAttribute::Conceal)
        } else if c == '9' {
            Option::Some(SgrAttribute::CrossedOut)
        } else {
            Option::None
        }
    } else if seg.len() == 2 {
        if !is_digit(seg[1]) {
            Option::None
        } else {
            let d = digit_val(seg[1]);
            if seg[0] == '3' && d <= 7 {
                Option::Some(SgrAttribute::Foreground(std_color(d)))
            } else if seg[0] == '9' && d <= 7 {
                Option::Some(SgrAttribute::Foreground(bright_color(d)))
            } else if seg[0] == '4' && d <= 7 {
                Option::Some(SgrAttribute::Background(std_color(d)))
            } else {
                Option::None
            }
        }
    } else if seg.len() == 3 {
        if seg[0] == '1' && seg[1] == '0' && is_digit(seg[2]) && digit_val(seg[2]) <= 7 {
            Option::Some(SgrAttribute::Background(bright_color(digit_val(seg[2]))))
        } else {
            Option::None
        }
    } else {
        Option::None
    }
}

/// True for the three extended-color introducer segments `38`, `48`, `58`.
pub open spec fn is_ext_intro(seg: Seq<char>) -> bool {
    seg == seq!['3', '8'] || seg == seq!['4', '8'] || seg == seq!['5', '8']
}

/// The slot attribute an extended-color introducer selects.
pub open spec fn slot_attr_for(intro: Seq<char>, c: Color) -> SgrAttribute {
    if intro == seq!['3', '8'] {
        SgrAttribute::Foreground(c)
    } else if intro == seq!['4', '8'] {
        SgrAttribute::Background(c)
    } else {
        SgrAttribute::UnderlineColor(c)
    }
}

/// The attributes named by an SGR parameter segment list, left to right.
///
/// An extended-color introducer consumes its mode segment and the mode's
/// color segments even when one of them fails to parse: the consumed
/// segments are lost, never reinterpreted.  This lossy-on-truncation
/// behavior is part of the wire protocol this library implements.
pub open spec fn sgr_attrs(segs: Seq<Seq<char>>) -> Seq<SgrAttribute>
    decreases segs.len(),
{
    if segs.len() == 0 {
        seq![]
    } else if is_ext_intro(segs[0]) {
        if segs.len() == 1 {
            seq![]
        } else if segs[1] == seq!['5'] {
            if segs.len() >= 3 {
                match parse_u8_spec(segs[2]) {
                    Option::Some(v) => seq![slot_attr_for(segs[0], Color::AnsiValue(v))]
                        + sgr_attrs(segs.skip(3)),
                    Option::None => sgr_attrs(segs.skip(3)),
                }
            } else {
                seq![]
            }
        } else if segs[1] == seq!['2'] {
            if segs.len() >= 5 {
                match (parse_u8_spec(segs[2]), parse_u8_spec(segs[3]), parse_u8_spec(segs[4])) {
                    (Option::Some(r), Option::Some(g), Option::Some(b)) => seq![
                        slot_attr_for(segs[0], Color::Rgb24 { r, g, b }),
                    ] + sgr_attrs(segs.skip(5)),
                    _ => sgr_attrs(segs.skip(5)),
                }
            } else {
                seq![]
            }
        } else {
            sgr_attrs(segs.skip(2))
        }
    } else {
        match basic_sgr(segs[0]) {
            Option::Some(a) => seq![a] + sgr_attrs(segs.skip(1)),
            Option::None => sgr_attrs(segs.skip(1)),
        }
    }
}

/// A cursor movement, from the parameter characters and the final byte.
/// A count that fails to parse defaults to one.
pub open spec fn or_one(o: Option<u16>) -> u16 {
    match o {
        Option::Some(v) => v,
        Option::None => 1u16,
    }
}

pub open spec fn cursor_for(params: Seq<char>, fin: char) -> Option<CursorMove> {
    if fin == 'A' {
        Option::Some(CursorMove::Up(or_one(parse_u16_spec(params))))
    } else if fin == 'B' {
        Option::Some(CursorMove::Down(or_one(parse_u16_spec(params))))
    } else if fin == 'C' {
        Option::Some(CursorMove::Forward(or_one(parse_u16_spec(params))))
    } else if fin == 'D' {
        Option::Some(CursorMove::Backward(or_one(parse_u16_spec(params))))
    } else if fin == 'E' {
        Option::Some(CursorMove::NextLine(or_one(parse_u16_spec(params))))
    } else if fin == 'F' {
        Option::Some(CursorMove::PreviousLine(or_one(parse_u16_spec(params))))
    } else if fin == 'G' {
        Option::Some(CursorMove::HorizontalAbsolute(or_one(parse_u16_spec(params))))
    } else if fin == 'H' || fin == 'f' {
        let k = find_semi_from(params, 0);
        let row = or_one(parse_u16_spec(params.take(k)));
        let col = if k == params.len() {
            1u16
        } else {
            or_one(parse_u16_spec(params.subrange(k + 1, find_semi_from(params, k + 1))))
        };
        Option::Some(CursorMove::Position { row, col })
    } else {
        Option::None
    }
}

/// An erase command, from the parameter characters and the final byte.
pub open spec fn erase_mode_for(params: Seq<char>) -> Option<EraseMode> {
    if params.len() == 0 || params == seq!['0'] {
        Option::Some(EraseMode::ToEnd)
    } else if params == seq!['1'] {
        Option::Some(EraseMode::ToStart)
    } else if params == seq!['2'] {
        Option::Some(EraseMode::All)
    } else {
        Option::None
    }
}

pub open spec fn erase_for(params: Seq<char>, fin: char) -> Option<Erase> {
    match erase_mode_for(params) {
        Option::Some(m) => if fin == 'J' {
            Option::Some(Erase::Display(m))
        } else if fin == 'K' {
            Option::Some(Erase::Line(m))
        } else {
            Option::None
        },
        Option::None => Option::None,
    }
}

/// A device control command, from the parameter characters and final byte.
pub open spec fn device_for(params: Seq<char>, fin: char) -> Option<DeviceControl> {
    if params.len() == 0 && fin == 's' {
        Option::Some(DeviceControl::SaveCursor)
    } else if params.len() == 0 && fin == 'u' {
        Option::Some(DeviceControl::RestoreCursor)
    } else if params == seq!['?', '2', '5'] && fin == 'l' {
        Option::Some(DeviceControl::HideCursor)
    } else if params == seq!['?', '2', '5'] && fin == 'h' {
        Option::Some(DeviceControl::ShowCursor)
    } else {
        Option::None
    }
}

/// Every escape value one complete CSI sequence yields: a list of SGR
/// attributes for final byte `m`, at most one cursor, erase, or device
/// value otherwise, and nothing for an unrecognized combination.
pub open spec fn escapes_for(params: Seq<char>, fin: char) -> Seq<AnsiEscape> {
    if fin == 'm' {
        sgr_attrs(nonempty_segments(params)).map_values(|a: SgrAttribute| AnsiEscape::Sgr(a))
    } else {
        match cursor_for(params, fin) {
            Option::Some(m) => seq![AnsiEscape::Cursor(m)],
            Option::None => match erase_for(params, fin) {
                Option::Some(e) => seq![AnsiEscape::Erase(e)],
                Option::None => match device_for(params, fin) {
                    Option::Some(d) => seq![AnsiEscape::Device(d)],
                    Option::None => seq![],
                },
            },
        }
    }
}

/// The style-merge machine's state: the attributes currently active, and the
/// byte offset at which the current span opened, if one is open.
pub struct StyleState {
    pub active: Seq<SgrAttribute>,
    pub open_at: Option<int>,
}

/// A span of the model output: a half-open byte range of the cleaned text
/// and the attributes active throughout it.
pub struct SpanRec {
    pub start: int,
    pub end: int,
    pub codes: Seq<SgrAttribute>,
}

/// A point event of the model output.
pub struct PointRec {
    pub pos: int,
    pub code: AnsiEscape,
}

/// Everything one decode produces.
pub struct DecodeOut {
    pub text: Seq<char>,
    pub spans: Seq<SpanRec>,
    pub points: Seq<PointRec>,
}

pub open spec fn init_state() -> StyleState {
    StyleState { active: Seq::<SgrAttribute>::empty(), open_at: Option::None }
}

/// The span recorded when the open span (if any) closes at offset `at`.
/// A span is recorded only when it carries attributes and covers at least
/// one byte: zero-width spans are dropped.
pub open spec fn close_spans(st: StyleState, at: int) -> Seq<SpanRec> {
    match st.open_at {
        Option::Some(start) => if st.active.len() > 0 && start != at {
            seq![SpanRec { start, end: at, codes: st.active }]
        } else {
            seq![]
        },
        Option::None => seq![],
    }
}

/// One SGR attribute hitting the machine at byte offset `at`.  Reset clears
/// the active set; any other attribute replaces the occupant of its
/// category.  When the set actually changes, the open span closes and a new
/// one opens if the new set is non-empty.
pub open spec fn apply_sgr(st: StyleState, a: SgrAttribute, at: int) -> (StyleState, Seq<SpanRec>) {
    let new_active = if a == SgrAttribute::Reset {
        Seq::<SgrAttribute>::empty()
    } else {
        insert_attr(st.active, a)
    };
    if new_active == st.active {
        (st, seq![])
    } else {
        let emitted = close_spans(st, at);
        let new_open = if new_active.len() > 0 {
            Option::Some(at)
        } else {
            Option::<int>::None
        };
        (StyleState { active: new_active, open_at: new_open }, emitted)
    }
}

/// A whole escape list hitting the machine at one byte offset: SGR values
/// drive the span machine, everything else becomes a point, in order.
pub open spec fn apply_escapes(escs: Seq<AnsiEscape>, at: int, st: StyleState) -> (
    Seq<SpanRec>,
    Seq<PointRec>,
    StyleState,
)
    decreases escs.len(),
{
    if escs.len() == 0 {
        (seq![], seq![], st)
    } else {
        match escs[0] {
            AnsiEscape::Sgr(a) => {
                let stepped = apply_sgr(st, a, at);
                let rest = apply_escapes(escs.drop_first(), at, stepped.0);
                (stepped.1 + rest.0, rest.1, rest.2)
            },
            _ => {
                let rest = apply_escapes(escs.drop_first(), at, st);
                (rest.0, seq![PointRec { pos: at, code: escs[0] }] + rest.1, rest.2)
            },
        }
    }
}

/// The decode of `input` from character position `pos`, with `at` the byte
/// offset reached in the cleaned text and `st` the machine state.  Each step
/// either consumes a recognized or malformed escape sequence (contributing
/// no text) or copies one character; an introducer with no final byte
/// consumes the whole tail.  At input end the open span, if any, closes.
pub open spec fn decode_from(input: Seq<char>, pos: int, at: int, st: StyleState) -> DecodeOut
    decreases input.len() - pos,
        via decode_from_decreases
{
    if pos < 0 || pos >= input.len() {
        DecodeOut { text: seq![], spans: close_spans(st, at), points: seq![] }
    } else if input[pos] == '\x1b' && pos + 1 < input.len() && input[pos + 1] == '[' {
        let t = find_final_from(input, pos + 2);
        if t == input.len() {
            DecodeOut { text: seq![], spans: close_spans(st, at), points: seq![] }
        } else {
            let stepped = apply_escapes(escapes_for(input.subrange(pos + 2, t), input[t]), at, st);
            let rest = decode_from(input, t + 1, at, stepped.2);
            DecodeOut {
                text: rest.text,
                spans: stepped.0 + rest.spans,
                points: stepped.1 + rest.points,
            }
        }
    } else {
        let rest = decode_from(input, pos + 1, at + char_width(input[pos]), st);
        DecodeOut { text: seq![input[pos]] + rest.text, spans: rest.spans, points: rest.points }
    }
}

#[via_fn]
proof fn decode_from_decreases(input: Seq<char>, pos: int, at: int, st: StyleState) {
    if 0 <= pos < input.len() {
        if input[pos] == '\x1b' && pos + 1 < input.len() && input[pos + 1] == '[' {
            lemma_find_final_range(input, pos + 2);
        }
    }
}

/// The decode of a whole input: position zero, offset zero, empty state.
pub open spec fn spec_parse(input: Seq<char>) -> DecodeOut {
    decode_from(input, 0, 0, init_state())
}

/// UTF-8 encoding distributes over concatenation; the byte-offset
/// bookkeeping of the scanner rests on this.
pub proof fn lemma_encode_utf8_concat(a: Seq<char>, b: Seq<char>)
    ensures
        encode_utf8(a + b) == encode_utf8(a) + encode_utf8(b),
    decreases a.len(),
{
    if a.len() == 0 {
        assert(a + b =~= b);
        assert(encode_utf8(a) =~= Seq::<u8>::empty());
        assert(encode_utf8(a) + encode_utf8(b) =~= encode_utf8(b));
    } else {
        assert((a + b).drop_first() =~= a.drop_first() + b);
        lemma_encode_utf8_concat(a.drop_first(), b);
        assert((a + b)[0] == a[0]);
        assert(encode_utf8(a + b) =~= encode_utf8(a) + encode_utf8(b));
    }
}

/// Appending one character grows the byte length by that character's width.
pub proof fn lemma_encode_utf8_push(s: Seq<char>, c: char)
    ensures
        encode_utf8(s.push(c)).len() == encode_utf8(s).len() + char_width(c),
{
    assert(s.push(c) =~= s + seq![c]);
    lemma_encode_utf8_concat(s, seq![c]);
    assert(seq![c].drop_first() =~= Seq::<char>::empty());
    assert(encode_utf8(Seq::<char>::empty()) =~= Seq::<u8>::empty());
    assert(encode_utf8(seq![c]) =~= encode_scalar(c as u32));
}

/// The tail's byte length splits at any position of the tail.
pub proof fn lemma_encode_utf8_skip_split(s: Seq<char>, i: int, j: int)
    requires
        0 <= i <= j <= s.len(),
    ensures
        encode_utf8(s.skip(i)).len() == encode_utf8(s.subrange(i, j)).len() + encode_utf8(
            s.skip(j),
        ).len(),
{
    assert(s.skip(i) =~= s.subrange(i, j) + s.skip(j));
    lemma_encode_utf8_concat(s.subrange(i, j), s.skip(j));
}

/// Consuming one character shrinks the tail's byte length by its width.
pub proof fn lemma_encode_utf8_skip_step(s: Seq<char>, i: int)
    requires
        0 <= i < s.len(),
    ensures
        encode_utf8(s.skip(i)).len() == char_width(s[i]) + encode_utf8(s.skip(i + 1)).len(),
{
    assert(s.skip(i) =~= seq![s[i]] + s.skip(i + 1));
    lemma_encode_utf8_concat(seq![s[i]], s.skip(i + 1));
    assert(seq![s[i]].drop_first() =~= Seq::<char>::empty());
    assert(encode_utf8(Seq::<char>::empty()) =~= Seq::<u8>::empty());
    assert(encode_utf8(seq![s[i]]) =~= encode_scalar(s[i] as u32));
}

/// The earliest byte offset any span produced from state `st` at offset
/// `at` can start: the open span's start, or `at` itself.
pub open spec fn base_of(st: StyleState, at: int) -> int {
    match st.open_at {
        Option::Some(v) => v,
        Option::None => at,
    }
}

/// The machine-state invariant the scanner maintains: a canonical active
/// set, a span open exactly when the set is non-empty, opened no later
/// than the current offset.
pub open spec fn state_wf(st: StyleState, at: int) -> bool {
    &&& attrs_canonical(st.active)
    &&& (st.open_at is Some <==> st.active.len() > 0)
    &&& base_of(st, at) <= at
}

/// Well-formed span list: each span is non-empty in width and attributes,
/// carries a canonical attribute set, lies within `[lo, hi]`, and the list
/// is ascending and pairwise non-overlapping.
pub open spec fn spans_wf(spans: Seq<SpanRec>, lo: int, hi: int) -> bool {
    &&& forall|i: int|
        0 <= i < spans.len() ==> lo <= (#[trigger] spans[i]).start < spans[i].end <= hi
    &&& forall|i: int|
        0 <= i < spans.len() ==> (#[trigger] spans[i]).codes.len() > 0 && attrs_canonical(
            spans[i].codes,
        )
    &&& forall|i: int, j: int|
        0 <= i < j < spans.len() ==> (#[trigger] spans[i]).end <= (#[trigger] spans[j]).start
}

/// Well-formed point list: offsets within `[lo, hi]`, ascending.
pub open spec fn points_wf(points: Seq<PointRec>, lo: int, hi: int) -> bool {
    &&& forall|i: int| 0 <= i < points.len() ==> lo <= (#[trigger] points[i]).pos <= hi
    &&& forall|i: int, j: int|
        0 <= i < j < points.len() ==> (#[trigger] points[i]).pos <= (#[trigger] points[j]).pos
}

proof fn lemma_apply_sgr_wf(st: StyleState, a: SgrAttribute, at: int)
    requires
        state_wf(st, at),
    ensures
        ({
            let stepped = apply_sgr(st, a, at);
            &&& state_wf(stepped.0, at)
            &&& stepped.1.len() <= 1
            &&& (stepped.1.len() == 1 ==> base_of(st, at) <= stepped.1[0].start < stepped.1[0].end
                == at && stepped.1[0].codes.len() > 0 && attrs_canonical(stepped.1[0].codes))
            &&& base_of(stepped.0, at) >= base_of(st, at)
            &&& (stepped.1.len() == 1 ==> base_of(stepped.0, at) == at)
            &&& (base_of(st, at) == at ==> stepped.1.len() == 0)
        }),
{
    let new_active = if a == SgrAttribute::Reset {
        Seq::<SgrAttribute>::empty()
    } else {
        insert_attr(st.active, a)
    };
    if a != SgrAttribute::Reset {
        lemma_insert_attr_canonical(st.active, a);
    }
}

proof fn lemma_apply_escapes_wf(escs: Seq<AnsiEscape>, at: int, st: StyleState)
    requires
        state_wf(st, at),
    ensures
        ({
            let stepped = apply_escapes(escs, at, st);
            &&& state_wf(stepped.2, at)
            &&& stepped.0.len() <= 1
            &&& (stepped.0.len() == 1 ==> base_of(st, at) <= stepped.0[0].start < stepped.0[0].end
                == at && stepped.0[0].codes.len() > 0 && attrs_canonical(stepped.0[0].codes))
            &&& base_of(stepped.2, at) >= base_of(st, at)
            &&& (stepped.0.len() == 1 ==> base_of(stepped.2, at) == at)
            &&& (base_of(st, at) == at ==> stepped.0.len() == 0)
            &&& forall|i: int| 0 <= i < stepped.1.len() ==> (#[trigger] stepped.1[i]).pos == at
        }),
    decreases escs.len(),
{
    if escs.len() > 0 {
        match escs[0] {
            AnsiEscape::Sgr(a) => {
                let head = apply_sgr(st, a, at);
                lemma_apply_sgr_wf(st, a, at);
                lemma_apply_escapes_wf(escs.drop_first(), at, head.0);
            },
            _ => {
                lemma_apply_escapes_wf(escs.drop_first(), at, st);
            },
        }
    }
}

/// The decode of any input from a well-formed state yields well-formed
/// output: spans are non-degenerate, canonically attributed, in bounds,
/// ascending and non-overlapping; points are in bounds and ascending.
pub proof fn lemma_decode_from_wf(input: Seq<char>, pos: int, at: int, st: StyleState)
    requires
        state_wf(st, at),
    ensures
        ({
            let out = decode_from(input, pos, at, st);
            let hi = at + encode_utf8(out.text).len();
            &&& spans_wf(out.spans, base_of(st, at), hi)
            &&& points_wf(out.points, at, hi)
        }),
    decreases input.len() - pos,
{
    let out = decode_from(input, pos, at, st);
    if pos < 0 || pos >= input.len() {
        assert(encode_utf8(out.text) =~= Seq::<u8>::empty());
    } else if input[pos] == '\x1b' && pos + 1 < input.len() && input[pos + 1] == '[' {
        let t = find_final_from(input, pos + 2);
        lemma_find_final_range(input, pos + 2);
        if t == input.len() {
            assert(encode_utf8(out.text) =~= Seq::<u8>::empty());
        } else {
            let escs = escapes_for(input.subrange(pos + 2, t), input[t]);
            let stepped = apply_escapes(escs, at, st);
            lemma_apply_escapes_wf(escs, at, st);
            lemma_decode_from_wf(input, t + 1, at, stepped.2);
            let rest = decode_from(input, t + 1, at, stepped.2);
            let hi = at + encode_utf8(out.text).len();
            assert(out.spans == stepped.0 + rest.spans);
            assert(encode_utf8(rest.text).len() >= 0);
            assert forall|i: int| 0 <= i < out.spans.len() implies base_of(st, at) <= (
            #[trigger] out.spans[i]).start < out.spans[i].end <= hi && out.spans[i].codes.len() > 0
                && attrs_canonical(out.spans[i].codes) by {
                if i < stepped.0.len() {
                    assert(out.spans[i] == stepped.0[i]);
                } else {
                    assert(out.spans[i] == rest.spans[i - stepped.0.len()]);
                }
            }
            assert forall|i: int, j: int| 0 <= i < j < out.spans.len() implies (
            #[trigger] out.spans[i]).end <= (#[trigger] out.spans[j]).start by {
                if i < stepped.0.len() {
                    assert(out.spans[i] == stepped.0[i]);
                    assert(out.spans[j] == rest.spans[j - stepped.0.len()]);
                    assert(base_of(stepped.2, at) == at);
                } else {
                    assert(out.spans[i] == rest.spans[i - stepped.0.len()]);
                    assert(out.spans[j] == rest.spans[j - stepped.0.len()]);
                }
            }
            assert forall|i: int| 0 <= i < out.points.len() implies at <= (
            #[trigger] out.points[i]).pos <= hi by {
                if i < stepped.1.len() {
                    assert(out.points[i] == stepped.1[i]);
                } else {
                    assert(out.points[i] == rest.points[i - stepped.1.len()]);
                }
            }
            assert forall|i: int, j: int| 0 <= i < j < out.points.len() implies (
            #[trigger] out.points[i]).pos <= (#[trigger] out.points[j]).pos by {
                if i < stepped.1.len() && j >= stepped.1.len() {
                    assert(out.points[i] == stepped.1[i]);
                    assert(out.points[j] == rest.points[j - stepped.1.len()]);
                } else if i < stepped.1.len() {
                    assert(out.points[i] == stepped.1[i]);
                    assert(out.points[j] == stepped.1[j]);
                } else {
                    assert(out.points[i] == rest.points[i - stepped.1.len()]);
                    assert(out.points[j] == rest.points[j - stepped.1.len()]);
                }
            }
        }
    } else {
        let c = input[pos];
        let w = char_width(c);
        assert(w >= 0);
        lemma_decode_from_wf(input, pos + 1, at + w, st);
        let rest = decode_from(input, pos + 1, at + w, st);
        assert(out.text == seq![c] + rest.text);
        lemma_encode_utf8_concat(seq![c], rest.text);
        assert(seq![c].drop_first() =~= Seq::<char>::empty());
        assert(encode_utf8(Seq::<char>::empty()) =~= Seq::<u8>::empty());
        assert(encode_utf8(seq![c]) =~= encode_scalar(c as u32));
        assert(at + encode_utf8(out.text).len() == (at + w) + encode_utf8(rest.text).len());
        assert(base_of(st, at + w) >= base_of(st, at));
    }
}

} // verus!
