//! Parsing the SGR (colour / emphasis) subset of ANSI into styled spans.
//!
//! The style is the library's own record of what a terminal cell style holds: foreground,
//! background and underline colours, and the sets of added and removed modifiers. The
//! presentation layer turns it into its widget library's style one for one.

use vstd::prelude::*;

use crate::csi::{
    csi_at, csi_is_sgr, csi_next, csi_params, esc, is_param_char, lemma_csi_end_bounds,
    lemma_sgr_at, no_esc_from, params_ok, scan_params, sgr_seq, visible_from,
};
use crate::text::{chars_of, push_range, string_of};

verus! {

/// A terminal colour: the sixteen named ones, the terminal's default, 256-colour palette
/// entries and 24-bit RGB.
#[derive(Clone, Copy, Debug, PartialEq, Eq)]
pub enum TermColor {
    Reset,
    Black,
    Red,
    Green,
    Yellow,
    Blue,
    Magenta,
    Cyan,
    Gray,
    DarkGray,
    LightRed,
    LightGreen,
    LightYellow,
    LightBlue,
    LightMagenta,
    LightCyan,
    White,
    Rgb(u8, u8, u8),
    Indexed(u8),
}

/// Bold text.
pub const BOLD: u16 = 0x0001;

/// Dim (faint) text.
pub const DIM: u16 = 0x0002;

/// Italic text.
pub const ITALIC: u16 = 0x0004;

/// Underlined text.
pub const UNDERLINED: u16 = 0x0008;

/// The style of a run of text. `add_modifier` and `sub_modifier` are bit sets of the modifier
/// flags above: those switched on, and those switched off.
#[derive(Clone, Copy, Debug, PartialEq, Eq)]
pub struct SpanStyle {
    pub fg: Option<TermColor>,
    pub bg: Option<TermColor>,
    pub underline_color: Option<TermColor>,
    pub add_modifier: u16,
    pub sub_modifier: u16,
}

/// `style` with foreground `c`.
pub open spec fn with_fg(style: SpanStyle, c: TermColor) -> SpanStyle {
    SpanStyle { fg: Some(c), ..style }
}

/// `style` with the modifiers `m` switched on.
pub open spec fn with_modifier(style: SpanStyle, m: u16) -> SpanStyle {
    SpanStyle { add_modifier: style.add_modifier | m, sub_modifier: style.sub_modifier & !m, ..style }
}

/// `style` with the modifiers `m` switched off.
pub open spec fn without_modifier(style: SpanStyle, m: u16) -> SpanStyle {
    SpanStyle { add_modifier: style.add_modifier & !m, sub_modifier: style.sub_modifier | m, ..style }
}

impl SpanStyle {
    /// Set the foreground colour.
    pub fn fg(self, c: TermColor) -> (r: SpanStyle)
        ensures
            r == with_fg(self, c),
    {
        SpanStyle { fg: Some(c), ..self }
    }

    /// Switch modifiers on (and take them out of the removed set).
    pub fn add_modifier(self, m: u16) -> (r: SpanStyle)
        ensures
            r == with_modifier(self, m),
    {
        SpanStyle { add_modifier: self.add_modifier | m, sub_modifier: self.sub_modifier & !m, ..self }
    }

    /// Switch modifiers off (and take them out of the added set).
    pub fn remove_modifier(self, m: u16) -> (r: SpanStyle)
        ensures
            r == without_modifier(self, m),
    {
        SpanStyle { add_modifier: self.add_modifier & !m, sub_modifier: self.sub_modifier | m, ..self }
    }
}

/// The colour a basic ANSI index (0–15) stands for; anything above 14 is white.
pub open spec fn basic_color_spec(n: int) -> TermColor {
    if n == 0 {
        TermColor::Black
    } else if n == 1 {
        TermColor::Red
    } else if n == 2 {
        TermColor::Green
    } else if n == 3 {
        TermColor::Yellow
    } else if n == 4 {
        TermColor::Blue
    } else if n == 5 {
        TermColor::Magenta
    } else if n == 6 {
        TermColor::Cyan
    } else if n == 7 {
        TermColor::Gray
    } else if n == 8 {
        TermColor::DarkGray
    } else if n == 9 {
        TermColor::LightRed
    } else if n == 10 {
        TermColor::LightGreen
    } else if n == 11 {
        TermColor::LightYellow
    } else if n == 12 {
        TermColor::LightBlue
    } else if n == 13 {
        TermColor::LightMagenta
    } else if n == 14 {
        TermColor::LightCyan
    } else {
        TermColor::White
    }
}

/// Map a basic ANSI colour index (0–15, the `30`–`37` / `90`–`97` SGR families) to a colour.
pub fn basic_color(n: u16) -> (r: TermColor)
    ensures
        r == basic_color_spec(n as int),
{
    match n {
        0 => TermColor::Black,
        1 => TermColor::Red,
        2 => TermColor::Green,
        3 => TermColor::Yellow,
        4 => TermColor::Blue,
        5 => TermColor::Magenta,
        6 => TermColor::Cyan,
        7 => TermColor::Gray,
        8 => TermColor::DarkGray,
        9 => TermColor::LightRed,
        10 => TermColor::LightGreen,
        11 => TermColor::LightYellow,
        12 => TermColor::LightBlue,
        13 => TermColor::LightMagenta,
        14 => TermColor::LightCyan,
        _ => TermColor::White,
    }
}

/// The value of a run of decimal digits.
pub open spec fn digits_value(d: Seq<char>) -> nat
    decreases d.len(),
{
    if d.len() == 0 {
        0
    } else {
        digits_value(d.drop_last()) * 10 + ((d.last() as u32) - ('0' as u32)) as nat
    }
}

/// The code a `;`-separated field stands for: none when it is empty or does not fit in `u16`.
pub open spec fn field_codes(d: Seq<char>) -> Seq<u16> {
    if d.len() > 0 && digits_value(d) <= 65535 {
        seq![digits_value(d) as u16]
    } else {
        Seq::empty()
    }
}

/// The codes of the fields of `p` from the field that starts at `start`, scanning at `i`.
pub open spec fn codes_from(p: Seq<char>, start: int, i: int) -> Seq<u16>
    decreases p.len() - i,
{
    if i >= p.len() {
        field_codes(p.subrange(start, p.len() as int))
    } else if p[i] == ';' {
        field_codes(p.subrange(start, i)) + codes_from(p, i + 1, i + 1)
    } else {
        codes_from(p, start, i + 1)
    }
}

/// The numeric codes of an SGR parameter list: its `;`-separated fields, empty ones and ones
/// that overflow `u16` left out.
pub open spec fn sgr_codes(p: Seq<char>) -> Seq<u16> {
    codes_from(p, 0, 0)
}

/// One step of folding SGR codes into a style: the style after the code at `i`, and the index
/// of the next code to read.
pub open spec fn sgr_step(base: SpanStyle, cur: SpanStyle, codes: Seq<u16>, i: int) -> (
    SpanStyle,
    int,
) {
    let c = codes[i];
    if c == 0 {
        (base, i + 1)
    } else if c == 1 {
        (with_modifier(cur, BOLD), i + 1)
    } else if c == 2 {
        (with_modifier(cur, DIM), i + 1)
    } else if c == 3 {
        (with_modifier(cur, ITALIC), i + 1)
    } else if c == 4 {
        (with_modifier(cur, UNDERLINED), i + 1)
    } else if c == 22 {
        (without_modifier(without_modifier(cur, BOLD), DIM), i + 1)
    } else if 30 <= c <= 37 {
        (with_fg(cur, basic_color_spec(c - 30)), i + 1)
    } else if c == 39 {
        (
            with_fg(
                cur,
                match base.fg {
                    Some(f) => f,
                    None => TermColor::Gray,
                },
            ),
            i + 1,
        )
    } else if 90 <= c <= 97 {
        (with_fg(cur, basic_color_spec(c - 90 + 8)), i + 1)
    } else if c == 38 && i + 1 < codes.len() && codes[i + 1] == 5 {
        if i + 2 < codes.len() {
            (with_fg(cur, TermColor::Indexed(codes[i + 2] as u8)), i + 3)
        } else {
            (cur, i + 3)
        }
    } else if c == 38 && i + 1 < codes.len() && codes[i + 1] == 2 {
        if i + 4 < codes.len() {
            (
                with_fg(
                    cur,
                    TermColor::Rgb(codes[i + 2] as u8, codes[i + 3] as u8, codes[i + 4] as u8),
                ),
                i + 5,
            )
        } else {
            (cur, i + 5)
        }
    } else if c == 48 && i + 1 < codes.len() && codes[i + 1] == 5 {
        (cur, i + 3)
    } else if c == 48 && i + 1 < codes.len() && codes[i + 1] == 2 {
        (cur, i + 5)
    } else {
        (cur, i + 1)
    }
}

/// The style after folding the codes from `i` on into `cur`.
pub open spec fn sgr_fold(base: SpanStyle, cur: SpanStyle, codes: Seq<u16>, i: int) -> SpanStyle
    decreases codes.len() - i,
{
    if i < 0 || i >= codes.len() {
        cur
    } else {
        let (next_style, next) = sgr_step(base, cur, codes, i);
        if next <= i {
            cur
        } else if next >= codes.len() {
            next_style
        } else {
            sgr_fold(base, next_style, codes, next)
        }
    }
}

/// The style after the SGR parameter list `params`, applied to `cur` with `base` as the reset
/// style: a list without codes is a full reset.
pub open spec fn apply_sgr_spec(base: SpanStyle, cur: SpanStyle, params: Seq<char>) -> SpanStyle {
    let codes = sgr_codes(params);
    if codes.len() == 0 {
        base
    } else {
        sgr_fold(base, cur, codes, 0)
    }
}

proof fn lemma_digits_value_push(d: Seq<char>, c: char)
    ensures
        digits_value(d.push(c)) == digits_value(d) * 10 + ((c as u32) - ('0' as u32)) as nat,
{
    assert(d.push(c).drop_last() =~= d);
}

/// The codes of an SGR parameter list (digits and `;` only).
fn parse_codes(p: &Vec<char>) -> (codes: Vec<u16>)
    requires
        forall|k: int| 0 <= k < p.len() ==> is_param_char(#[trigger] p@[k]),
    ensures
        codes@ == sgr_codes(p@),
{
    let mut codes: Vec<u16> = Vec::new();
    let mut start: usize = 0;
    let mut val: u32 = 0;
    let mut overflow = false;
    let mut i: usize = 0;
    while i < p.len()
        invariant
            start <= i <= p.len(),
            forall|k: int| 0 <= k < p.len() ==> is_param_char(#[trigger] p@[k]),
            !overflow ==> val == digits_value(p@.subrange(start as int, i as int)) && val <= 65535,
            overflow ==> digits_value(p@.subrange(start as int, i as int)) > 65535,
            codes@ + codes_from(p@, start as int, i as int) == sgr_codes(p@),
            forall|k: int| start <= k < i ==> #[trigger] p@[k] != ';',
        decreases p.len() - i,
    {
        let c = p[i];
        if c == ';' {
            let ghost field = p@.subrange(start as int, i as int);
            let ghost before = codes@;
            if i > start && !overflow {
                codes.push(val as u16);
            }
            proof {
                assert(codes@ == before + field_codes(field));
            }
            start = i + 1;
            val = 0;
            overflow = false;
            proof {
                assert(p@.subrange(start as int, start as int) =~= Seq::<char>::empty());
                assert(before + (field_codes(field) + codes_from(p@, i + 1, i + 1)) =~= codes@
                    + codes_from(p@, i + 1, i + 1));
            }
        } else {
            let ghost field = p@.subrange(start as int, i as int);
            assert(p@.subrange(start as int, i + 1) =~= field.push(c));
            proof {
                lemma_digits_value_push(field, c);
            }
            let d: u32 = (c as u32) - ('0' as u32);
            if !overflow {
                if val > 6553 || (val == 6553 && d > 5) {
                    overflow = true;
                } else {
                    val = val * 10 + d;
                }
            }
        }
        i = i + 1;
    }
    let ghost field = p@.subrange(start as int, p.len() as int);
    let ghost before = codes@;
    if p.len() > start && !overflow {
        codes.push(val as u16);
    }
    proof {
        assert(codes@ =~= before + field_codes(field));
    }
    codes
}

/// Fold one SGR parameter list (digits and `;`, the numbers before an `m`) into the running
/// style, resetting to `base` on `0` or a list without codes. Supports reset, bold, dim, italic,
/// underline, normal intensity (`22`), the 8+8 basic foreground colours, the default foreground
/// (`39`), 256-colour (`38;5;n`) and truecolor (`38;2;r;g;b`) foregrounds; background colours
/// (`48;…`) are skipped.
pub fn apply_sgr(base: SpanStyle, cur: SpanStyle, params: &Vec<char>) -> (r: SpanStyle)
    requires
        forall|k: int| 0 <= k < params.len() ==> is_param_char(#[trigger] params@[k]),
    ensures
        r == apply_sgr_spec(base, cur, params@),
{
    let codes = parse_codes(params);
    if codes.len() == 0 {
        return base;
    }
    let n = codes.len();
    let mut style = cur;
    let mut i: usize = 0;
    while i < n
        invariant
            n == codes.len(),
            codes@ == sgr_codes(params@),
            i <= n,
            sgr_fold(base, style, codes@, i as int) == sgr_fold(base, cur, codes@, 0),
        decreases n - i,
    {
        let ghost step = sgr_step(base, style, codes@, i as int);
        let ghost i0 = i as int;
        let c = codes[i];
        let mut next: usize = i + 1;
        if c == 0 {
            style = base;
        } else if c == 1 {
            style = style.add_modifier(BOLD);
        } else if c == 2 {
            style = style.add_modifier(DIM);
        } else if c == 3 {
            style = style.add_modifier(ITALIC);
        } else if c == 4 {
            style = style.add_modifier(UNDERLINED);
        } else if c == 22 {
            style = style.remove_modifier(BOLD).remove_modifier(DIM);
        } else if 30 <= c && c <= 37 {
            style = style.fg(basic_color(c - 30));
        } else if c == 39 {
            let f = match base.fg {
                Some(f) => f,
                None => TermColor::Gray,
            };
            style = style.fg(f);
        } else if 90 <= c && c <= 97 {
            style = style.fg(basic_color(c - 90 + 8));
        } else if c == 38 && i + 1 < n && codes[i + 1] == 5 {
            if n - i > 2 {
                style = style.fg(TermColor::Indexed(codes[i + 2] as u8));
            }
            next = if n - i > 3 {
                i + 3
            } else {
                n
            };
        } else if c == 38 && i + 1 < n && codes[i + 1] == 2 {
            if n - i > 4 {
                style = style.fg(
                    TermColor::Rgb(codes[i + 2] as u8, codes[i + 3] as u8, codes[i + 4] as u8),
                );
            }
            next = if n - i > 5 {
                i + 5
            } else {
                n
            };
        } else if c == 48 && i + 1 < n && codes[i + 1] == 5 {
            next = if n - i > 3 {
                i + 3
            } else {
                n
            };
        } else if c == 48 && i + 1 < n && codes[i + 1] == 2 {
            next = if n - i > 5 {
                i + 5
            } else {
                n
            };
        }
        assert(step.0 == style);
        assert(step.1 == next || (next == n && step.1 >= n));
        assert(sgr_fold(base, style, codes@, next as int) == sgr_fold(base, step.0, codes@, step.1));
        i = next;
    }
    style
}


/// The spans of `s` from position `i` on: `cur` is the style in force and `buf` the text
/// gathered for it so far. Every SGR sequence closes the pending text (when there is any) and
/// changes the style; other control sequences are dropped.
pub open spec fn spans_from(s: Seq<char>, i: int, base: SpanStyle, cur: SpanStyle, buf: Seq<char>) -> Seq<
    (Seq<char>, SpanStyle),
>
    decreases s.len() - i,
    via spans_from_decreases
{
    if i < 0 || i >= s.len() {
        if buf.len() > 0 {
            seq![(buf, cur)]
        } else {
            Seq::empty()
        }
    } else if csi_at(s, i) {
        if csi_is_sgr(s, i) {
            let flushed: Seq<(Seq<char>, SpanStyle)> = if buf.len() > 0 {
                seq![(buf, cur)]
            } else {
                Seq::empty()
            };
            flushed + spans_from(
                s,
                csi_next(s, i),
                base,
                apply_sgr_spec(base, cur, csi_params(s, i)),
                Seq::empty(),
            )
        } else {
            spans_from(s, csi_next(s, i), base, cur, buf)
        }
    } else {
        spans_from(s, i + 1, base, cur, buf.push(s[i]))
    }
}

#[via_fn]
proof fn spans_from_decreases(
    s: Seq<char>,
    i: int,
    base: SpanStyle,
    cur: SpanStyle,
    buf: Seq<char>,
) {
    if 0 <= i {
        lemma_csi_end_bounds(s, i + 2);
    }
}

/// What `ansi_spans` returns for `row`: its spans, or one empty span in the base style when
/// there are none.
pub open spec fn ansi_spans_spec(row: Seq<char>, base: SpanStyle) -> Seq<(Seq<char>, SpanStyle)> {
    let r = spans_from(row, 0, base, base, Seq::empty());
    if r.len() == 0 {
        seq![(Seq::empty(), base)]
    } else {
        r
    }
}

/// The text and style of each span.
pub open spec fn spans_view(v: Seq<(String, SpanStyle)>) -> Seq<(Seq<char>, SpanStyle)> {
    v.map_values(|p: (String, SpanStyle)| (p.0@, p.1))
}

/// Parse a single already-sanitised row (SGR only, no cursor moves) into styled spans over
/// `base`. A row with no colour codes collapses to one span in the base style.
pub fn ansi_spans(row: &str, base: SpanStyle) -> (r: Vec<(String, SpanStyle)>)
    ensures
        spans_view(r@) == ansi_spans_spec(row@, base),
{
    let cs = chars_of(row);
    let n = cs.len();
    let mut spans: Vec<(String, SpanStyle)> = Vec::new();
    let mut cur = base;
    let mut buf: Vec<char> = Vec::new();
    let mut i: usize = 0;
    while i < n
        invariant
            n == cs.len(),
            cs@ == row@,
            i <= n,
            spans_view(spans@) + spans_from(cs@, i as int, base, cur, buf@) == spans_from(
                cs@,
                0,
                base,
                base,
                Seq::empty(),
            ),
        decreases n - i,
    {
        let ghost before = spans_view(spans@);
        let ghost b0 = buf@;
        let ghost c0 = cur;
        if cs[i] == '\x1b' && i + 1 < n && cs[i + 1] == '[' {
            proof {
                lemma_csi_end_bounds(cs@, i + 2);
            }
            let j = scan_params(cs.as_slice(), i + 2);
            assert(csi_at(cs@, i as int));
            if j < n && cs[j] == 'm' {
                assert(csi_is_sgr(cs@, i as int));
                if buf.len() > 0 {
                    let text = string_of(buf.as_slice());
                    spans.push((text, cur));
                    buf = Vec::new();
                }
                let ghost flushed: Seq<(Seq<char>, SpanStyle)> = if b0.len() > 0 {
                    seq![(b0, c0)]
                } else {
                    Seq::empty()
                };
                assert(spans_view(spans@) =~= before + flushed);
                let mut params: Vec<char> = Vec::new();
                push_range(&mut params, cs.as_slice(), i + 2, j);
                assert(params@ =~= csi_params(cs@, i as int));
                cur = apply_sgr(base, cur, &params);
                assert(buf@ =~= Seq::<char>::empty());
                assert(before + (flushed + spans_from(cs@, j + 1, base, cur, buf@)) =~= spans_view(
                    spans@,
                ) + spans_from(cs@, j + 1, base, cur, buf@));
                i = j + 1;
            } else {
                assert(!csi_is_sgr(cs@, i as int));
                i = if j < n {
                    j + 1
                } else {
                    n
                };
            }
        } else {
            assert(!csi_at(cs@, i as int));
            buf.push(cs[i]);
            i = i + 1;
        }
    }
    let ghost before = spans_view(spans@);
    if buf.len() > 0 {
        let text = string_of(buf.as_slice());
        spans.push((text, cur));
    }
    assert(spans_view(spans@) =~= before + spans_from(cs@, n as int, base, cur, buf@));
    if spans.len() == 0 {
        spans.push((String::new(), base));
        assert(spans_view(spans@) =~= seq![(Seq::<char>::empty(), base)]);
    }
    spans
}


/// The texts of a list of spans, joined.
pub open spec fn span_text(spans: Seq<(Seq<char>, SpanStyle)>) -> Seq<char>
    decreases spans.len(),
{
    if spans.len() == 0 {
        Seq::empty()
    } else {
        spans[0].0 + span_text(spans.drop_first())
    }
}

proof fn lemma_span_text_single(x: (Seq<char>, SpanStyle))
    ensures
        span_text(seq![x]) == x.0,
{
    let e = Seq::<(Seq<char>, SpanStyle)>::empty();
    assert(seq![x].drop_first() =~= e);
    assert(span_text(e) == Seq::<char>::empty());
    assert(seq![x][0] == x);
    assert(seq![x].len() == 1);
    assert(span_text(seq![x]) == seq![x][0].0 + span_text(seq![x].drop_first()));
    assert(x.0 + Seq::<char>::empty() =~= x.0);
}

proof fn lemma_span_text_concat(a: Seq<(Seq<char>, SpanStyle)>, b: Seq<(Seq<char>, SpanStyle)>)
    ensures
        span_text(a + b) == span_text(a) + span_text(b),
    decreases a.len(),
{
    if a.len() == 0 {
        assert(a + b =~= b);
        assert(span_text(a) + span_text(b) =~= span_text(b));
    } else {
        assert((a + b).drop_first() =~= a.drop_first() + b);
        lemma_span_text_concat(a.drop_first(), b);
        assert(span_text(a + b) =~= a[0].0 + (span_text(a.drop_first()) + span_text(b)));
    }
}

proof fn lemma_spans_text(s: Seq<char>, i: int, base: SpanStyle, cur: SpanStyle, buf: Seq<char>)
    requires
        0 <= i,
    ensures
        span_text(spans_from(s, i, base, cur, buf)) == buf + visible_from(s, i),
    decreases s.len() - i,
{
    if i >= s.len() {
        if buf.len() > 0 {
            lemma_span_text_single((buf, cur));
            assert(buf + Seq::<char>::empty() =~= buf);
        } else {
            assert(buf + Seq::<char>::empty() =~= Seq::<char>::empty());
        }
    } else if csi_at(s, i) {
        lemma_csi_end_bounds(s, i + 2);
        let next = csi_next(s, i);
        if csi_is_sgr(s, i) {
            let style = apply_sgr_spec(base, cur, csi_params(s, i));
            lemma_spans_text(s, next, base, style, Seq::empty());
            let flushed: Seq<(Seq<char>, SpanStyle)> = if buf.len() > 0 {
                seq![(buf, cur)]
            } else {
                Seq::empty()
            };
            lemma_span_text_concat(flushed, spans_from(s, next, base, style, Seq::empty()));
            if buf.len() > 0 {
                lemma_span_text_single((buf, cur));
            } else {
                assert(span_text(flushed) =~= buf);
            }
            assert(Seq::<char>::empty() + visible_from(s, next) =~= visible_from(s, next));
        } else {
            lemma_spans_text(s, next, base, cur, buf);
        }
    } else {
        lemma_spans_text(s, i + 1, base, cur, buf.push(s[i]));
        assert(buf.push(s[i]) + visible_from(s, i + 1) =~= buf + (seq![s[i]] + visible_from(s, i + 1)));
    }
}

/// Parsing into spans loses no text: the spans' texts, joined, are the row with its control
/// sequences taken out.
pub proof fn lemma_ansi_spans_text(row: Seq<char>, base: SpanStyle)
    ensures
        span_text(ansi_spans_spec(row, base)) == visible_from(row, 0),
{
    lemma_spans_text(row, 0, base, base, Seq::empty());
    assert(Seq::<char>::empty() + visible_from(row, 0) =~= visible_from(row, 0));
    let r = spans_from(row, 0, base, base, Seq::empty());
    if r.len() == 0 {
        lemma_span_text_single((Seq::<char>::empty(), base));
    }
}

proof fn lemma_spans_plain(s: Seq<char>, i: int, base: SpanStyle, cur: SpanStyle, buf: Seq<char>)
    requires
        0 <= i <= s.len(),
        no_esc_from(s, i),
    ensures
        spans_from(s, i, base, cur, buf) == if buf.len() + s.len() - i > 0 {
            seq![(buf + s.skip(i), cur)]
        } else {
            Seq::empty()
        },
    decreases s.len() - i,
{
    if i < s.len() {
        assert(!csi_at(s, i));
        lemma_spans_plain(s, i + 1, base, cur, buf.push(s[i]));
        assert(buf.push(s[i]) + s.skip(i + 1) =~= buf + s.skip(i));
    } else {
        assert(buf + s.skip(i) =~= buf);
    }
}

/// A row without escape characters is one span in the base style.
pub proof fn lemma_ansi_spans_plain(row: Seq<char>, base: SpanStyle)
    requires
        no_esc_from(row, 0),
    ensures
        ansi_spans_spec(row, base) == seq![(row, base)],
{
    lemma_spans_plain(row, 0, base, base, Seq::empty());
    assert(Seq::<char>::empty() + row.skip(0) =~= row);
}

/// A parameter list without codes (`ESC [ m`) or the single code `0` resets to the base style.
pub proof fn lemma_apply_sgr_reset(base: SpanStyle, cur: SpanStyle)
    ensures
        apply_sgr_spec(base, cur, Seq::empty()) == base,
        apply_sgr_spec(base, cur, seq!['0']) == base,
{
    let p = seq!['0'];
    assert(sgr_codes(Seq::empty()) =~= Seq::<u16>::empty()) by {
        assert(Seq::<char>::empty().subrange(0, 0) =~= Seq::<char>::empty());
    }
    assert(codes_from(p, 0, 1) == field_codes(p.subrange(0, 1)));
    assert(p.subrange(0, 1) =~= p);
    assert(p.drop_last() =~= Seq::<char>::empty());
    assert(p.last() == '0');
    assert(digits_value(p.drop_last()) == 0);
    assert(digits_value(p) == 0);
    assert(sgr_codes(p) =~= seq![0u16]);
    reveal_with_fuel(sgr_fold, 2);
}


/// SGR sequences fold into the running style: at an SGR sequence `ESC [ p m`, the text gathered
/// so far (if any) closes as a span in the style `cur` in force, and what follows is parsed in
/// the style that `p` makes of `cur` — not of the base style.
pub proof fn lemma_spans_sgr_step(
    s: Seq<char>,
    i: int,
    p: Seq<char>,
    base: SpanStyle,
    cur: SpanStyle,
    buf: Seq<char>,
)
    requires
        0 <= i,
        i + p.len() + 3 <= s.len(),
        params_ok(p),
        s.subrange(i, i + p.len() + 3) == sgr_seq(p),
    ensures
        spans_from(s, i, base, cur, buf) == (if buf.len() > 0 {
            seq![(buf, cur)]
        } else {
            Seq::empty()
        }) + spans_from(s, i + p.len() + 3, base, apply_sgr_spec(base, cur, p), Seq::empty()),
{
    lemma_sgr_at(s, i, p);
}

/// Two SGR sequences in a row compose: for `ESC [ p1 m ESC [ p2 m` followed by plain text, the
/// text is one span whose style is `p2` applied to the style that `p1` made of the base.
pub proof fn lemma_ansi_spans_two_sgr(p1: Seq<char>, p2: Seq<char>, t: Seq<char>, base: SpanStyle)
    requires
        params_ok(p1),
        params_ok(p2),
        t.len() > 0,
        no_esc_from(t, 0),
    ensures
        ansi_spans_spec(sgr_seq(p1) + sgr_seq(p2) + t, base) == seq![
            (t, apply_sgr_spec(base, apply_sgr_spec(base, base, p1), p2)),
        ],
{
    let s1 = sgr_seq(p1);
    let s2 = sgr_seq(p2);
    let row = s1 + s2 + t;
    let n1 = s1.len() as int;
    let n2 = (s1.len() + s2.len()) as int;
    let st1 = apply_sgr_spec(base, base, p1);
    let st2 = apply_sgr_spec(base, st1, p2);
    assert(row.subrange(0, p1.len() + 3 as int) =~= s1);
    lemma_spans_sgr_step(row, 0, p1, base, base, Seq::empty());
    assert(row.subrange(n1, n1 + p2.len() + 3) =~= s2);
    lemma_spans_sgr_step(row, n1, p2, base, st1, Seq::empty());
    assert forall|k: int| n2 <= k < row.len() implies #[trigger] row[k] != esc() by {
        assert(row[k] == t[k - n2]);
    }
    lemma_spans_plain(row, n2, base, st2, Seq::empty());
    assert(Seq::<char>::empty() + row.skip(n2) =~= t);
    assert(Seq::<(Seq<char>, SpanStyle)>::empty() + (Seq::<(Seq<char>, SpanStyle)>::empty()
        + seq![(t, st2)]) =~= seq![(t, st2)]);
}


proof fn lemma_codes_one_field(p: Seq<char>, i: int)
    requires
        0 <= i <= p.len(),
        forall|k: int| 0 <= k < p.len() ==> #[trigger] p[k] != ';',
    ensures
        codes_from(p, 0, i) == field_codes(p),
    decreases p.len() - i,
{
    if i < p.len() {
        lemma_codes_one_field(p, i + 1);
    } else {
        assert(p.subrange(0, p.len() as int) =~= p);
    }
}

proof fn lemma_apply_single_code(base: SpanStyle, cur: SpanStyle, p: Seq<char>, c: u16)
    requires
        sgr_codes(p) == seq![c],
    ensures
        apply_sgr_spec(base, cur, p) == sgr_step(base, cur, seq![c], 0).0,
{
    let (st, next) = sgr_step(base, cur, seq![c], 0);
    assert(next > 0);
}

proof fn lemma_sgr_one_digit(base: SpanStyle, cur: SpanStyle, a: char)
    requires
        '0' <= a <= '9',
    ensures
        apply_sgr_spec(base, cur, seq![a]) == sgr_step(
            base,
            cur,
            seq![((a as u32) - ('0' as u32)) as u16],
            0,
        ).0,
{
    let p = seq![a];
    assert(p.drop_last() =~= Seq::<char>::empty());
    assert(p.last() == a);
    assert(digits_value(Seq::<char>::empty()) == 0);
    assert(digits_value(p) == (a as u32) - ('0' as u32));
    lemma_codes_one_field(p, 0);
    lemma_apply_single_code(base, cur, p, ((a as u32) - ('0' as u32)) as u16);
}

proof fn lemma_sgr_two_digits(base: SpanStyle, cur: SpanStyle, a: char, b: char)
    requires
        '0' <= a <= '9',
        '0' <= b <= '9',
    ensures
        apply_sgr_spec(base, cur, seq![a, b]) == sgr_step(
            base,
            cur,
            seq![(((a as u32) - ('0' as u32)) * 10 + ((b as u32) - ('0' as u32))) as u16],
            0,
        ).0,
{
    let p = seq![a, b];
    assert(p.drop_last() =~= seq![a]);
    assert(seq![a].drop_last() =~= Seq::<char>::empty());
    assert(seq![a].last() == a);
    assert(p.last() == b);
    assert(digits_value(Seq::<char>::empty()) == 0);
    assert(digits_value(seq![a]) == (a as u32) - ('0' as u32));
    assert(digits_value(p) == ((a as u32) - ('0' as u32)) * 10 + ((b as u32) - ('0' as u32)));
    lemma_codes_one_field(p, 0);
    lemma_apply_single_code(
        base,
        cur,
        p,
        (((a as u32) - ('0' as u32)) * 10 + ((b as u32) - ('0' as u32))) as u16,
    );
}

/// The emphasis codes: `1`, `2`, `3` and `4` switch bold, dim, italic and underline on (adding
/// them to the set switched on and taking them out of the set switched off), `22` switches bold
/// and dim off; nothing else about the style changes.
pub proof fn lemma_sgr_emphasis_codes(base: SpanStyle, cur: SpanStyle)
    ensures
        apply_sgr_spec(base, cur, seq!['1']) == (SpanStyle {
            add_modifier: cur.add_modifier | BOLD,
            sub_modifier: cur.sub_modifier & !BOLD,
            ..cur
        }),
        apply_sgr_spec(base, cur, seq!['2']) == (SpanStyle {
            add_modifier: cur.add_modifier | DIM,
            sub_modifier: cur.sub_modifier & !DIM,
            ..cur
        }),
        apply_sgr_spec(base, cur, seq!['3']) == (SpanStyle {
            add_modifier: cur.add_modifier | ITALIC,
            sub_modifier: cur.sub_modifier & !ITALIC,
            ..cur
        }),
        apply_sgr_spec(base, cur, seq!['4']) == (SpanStyle {
            add_modifier: cur.add_modifier | UNDERLINED,
            sub_modifier: cur.sub_modifier & !UNDERLINED,
            ..cur
        }),
        apply_sgr_spec(base, cur, seq!['2', '2']) == (SpanStyle {
            add_modifier: (cur.add_modifier & !BOLD) & !DIM,
            sub_modifier: (cur.sub_modifier | BOLD) | DIM,
            ..cur
        }),
{
    lemma_sgr_one_digit(base, cur, '1');
    lemma_sgr_one_digit(base, cur, '2');
    lemma_sgr_one_digit(base, cur, '3');
    lemma_sgr_one_digit(base, cur, '4');
    lemma_sgr_two_digits(base, cur, '2', '2');
}

/// The basic foreground codes: `30`–`37` select black, red, green, yellow, blue, magenta, cyan
/// and gray; nothing else about the style changes.
pub proof fn lemma_sgr_basic_fg_codes(base: SpanStyle, cur: SpanStyle)
    ensures
        apply_sgr_spec(base, cur, seq!['3', '0']) == (SpanStyle { fg: Some(TermColor::Black), ..cur }),
        apply_sgr_spec(base, cur, seq!['3', '1']) == (SpanStyle { fg: Some(TermColor::Red), ..cur }),
        apply_sgr_spec(base, cur, seq!['3', '2']) == (SpanStyle { fg: Some(TermColor::Green), ..cur }),
        apply_sgr_spec(base, cur, seq!['3', '3']) == (SpanStyle { fg: Some(TermColor::Yellow), ..cur }),
        apply_sgr_spec(base, cur, seq!['3', '4']) == (SpanStyle { fg: Some(TermColor::Blue), ..cur }),
        apply_sgr_spec(base, cur, seq!['3', '5']) == (SpanStyle { fg: Some(TermColor::Magenta), ..cur }),
        apply_sgr_spec(base, cur, seq!['3', '6']) == (SpanStyle { fg: Some(TermColor::Cyan), ..cur }),
        apply_sgr_spec(base, cur, seq!['3', '7']) == (SpanStyle { fg: Some(TermColor::Gray), ..cur }),
{
    lemma_sgr_two_digits(base, cur, '3', '0');
    lemma_sgr_two_digits(base, cur, '3', '1');
    lemma_sgr_two_digits(base, cur, '3', '2');
    lemma_sgr_two_digits(base, cur, '3', '3');
    lemma_sgr_two_digits(base, cur, '3', '4');
    lemma_sgr_two_digits(base, cur, '3', '5');
    lemma_sgr_two_digits(base, cur, '3', '6');
    lemma_sgr_two_digits(base, cur, '3', '7');
}

/// The bright foreground codes: `90`–`97` select dark gray, light red, light green, light
/// yellow, light blue, light magenta, light cyan and white; nothing else changes.
pub proof fn lemma_sgr_bright_fg_codes(base: SpanStyle, cur: SpanStyle)
    ensures
        apply_sgr_spec(base, cur, seq!['9', '0']) == (SpanStyle { fg: Some(TermColor::DarkGray), ..cur }),
        apply_sgr_spec(base, cur, seq!['9', '1']) == (SpanStyle { fg: Some(TermColor::LightRed), ..cur }),
        apply_sgr_spec(base, cur, seq!['9', '2']) == (SpanStyle { fg: Some(TermColor::LightGreen), ..cur }),
        apply_sgr_spec(base, cur, seq!['9', '3']) == (SpanStyle { fg: Some(TermColor::LightYellow), ..cur }),
        apply_sgr_spec(base, cur, seq!['9', '4']) == (SpanStyle { fg: Some(TermColor::LightBlue), ..cur }),
        apply_sgr_spec(base, cur, seq!['9', '5']) == (SpanStyle { fg: Some(TermColor::LightMagenta), ..cur }),
        apply_sgr_spec(base, cur, seq!['9', '6']) == (SpanStyle { fg: Some(TermColor::LightCyan), ..cur }),
        apply_sgr_spec(base, cur, seq!['9', '7']) == (SpanStyle { fg: Some(TermColor::White), ..cur }),
{
    lemma_sgr_two_digits(base, cur, '9', '0');
    lemma_sgr_two_digits(base, cur, '9', '1');
    lemma_sgr_two_digits(base, cur, '9', '2');
    lemma_sgr_two_digits(base, cur, '9', '3');
    lemma_sgr_two_digits(base, cur, '9', '4');
    lemma_sgr_two_digits(base, cur, '9', '5');
    lemma_sgr_two_digits(base, cur, '9', '6');
    lemma_sgr_two_digits(base, cur, '9', '7');
}

/// `39` restores the base foreground (gray when the base has none); codes the style does not
/// model (`5`, `7`, `24`, `49`) leave it unchanged.
pub proof fn lemma_sgr_other_codes(base: SpanStyle, cur: SpanStyle)
    ensures
        apply_sgr_spec(base, cur, seq!['3', '9']) == (SpanStyle {
            fg: Some(
                match base.fg {
                    Some(f) => f,
                    None => TermColor::Gray,
                },
            ),
            ..cur
        }),
        apply_sgr_spec(base, cur, seq!['5']) == cur,
        apply_sgr_spec(base, cur, seq!['7']) == cur,
        apply_sgr_spec(base, cur, seq!['2', '4']) == cur,
        apply_sgr_spec(base, cur, seq!['4', '9']) == cur,
{
    lemma_sgr_two_digits(base, cur, '3', '9');
    lemma_sgr_one_digit(base, cur, '5');
    lemma_sgr_one_digit(base, cur, '7');
    lemma_sgr_two_digits(base, cur, '2', '4');
    lemma_sgr_two_digits(base, cur, '4', '9');
}


proof fn lemma_codes_shift(pre: Seq<char>, rest: Seq<char>, a: int, b: int)
    requires
        0 <= a <= b <= rest.len(),
    ensures
        codes_from(pre + rest, pre.len() + a, pre.len() + b) == codes_from(rest, a, b),
    decreases rest.len() - b,
{
    let p = pre + rest;
    let o = pre.len() as int;
    if b < rest.len() {
        assert(p[o + b] == rest[b]);
        if rest[b] == ';' {
            assert(p.subrange(o + a, o + b) =~= rest.subrange(a, b));
            lemma_codes_shift(pre, rest, b + 1, b + 1);
        } else {
            lemma_codes_shift(pre, rest, a, b + 1);
        }
    } else {
        assert(p.subrange(o + a, p.len() as int) =~= rest.subrange(a, rest.len() as int));
    }
}

proof fn lemma_codes_skip(p: Seq<char>, start: int, i: int, j: int)
    requires
        0 <= start <= i <= j <= p.len(),
        forall|k: int| i <= k < j ==> #[trigger] p[k] != ';',
    ensures
        codes_from(p, start, i) == codes_from(p, start, j),
    decreases j - i,
{
    if i < j {
        lemma_codes_skip(p, start, i + 1, j);
    }
}

/// The codes of `q ; rest`, where the first field `q` holds no `;`: the code of `q` (if it has
/// one) followed by the codes of `rest`.
proof fn lemma_codes_split(q: Seq<char>, rest: Seq<char>)
    requires
        forall|k: int| 0 <= k < q.len() ==> #[trigger] q[k] != ';',
    ensures
        sgr_codes(q + seq![';'] + rest) == field_codes(q) + sgr_codes(rest),
{
    let pre = q + seq![';'];
    let p = pre + rest;
    assert(q + seq![';'] + rest == p);
    let n = q.len() as int;
    assert forall|k: int| 0 <= k < n implies #[trigger] p[k] != ';' by {
        assert(p[k] == q[k]);
    }
    lemma_codes_skip(p, 0, 0, n);
    assert(p[n] == ';');
    assert(p.subrange(0, n) =~= q);
    lemma_codes_shift(pre, rest, 0, 0);
}

/// A list of digits (no `;`) with a value that fits in `u16` has that value as its one code.
proof fn lemma_codes_digits(q: Seq<char>)
    requires
        q.len() > 0,
        forall|k: int| 0 <= k < q.len() ==> #[trigger] q[k] != ';',
        digits_value(q) <= 65535,
    ensures
        sgr_codes(q) == seq![digits_value(q) as u16],
        field_codes(q) == seq![digits_value(q) as u16],
{
    lemma_codes_one_field(q, 0);
}

/// A field of digits with a value that fits in `u16`.
pub open spec fn code_field(q: Seq<char>) -> bool {
    &&& q.len() > 0
    &&& forall|k: int| 0 <= k < q.len() ==> '0' <= #[trigger] q[k] <= '9'
    &&& digits_value(q) <= 65535
}

/// Codes in one list apply left to right: `q1 ; q2` does to a style what `q1` and then `q2`
/// do, each on the style the one before left (unless `q1` is `38` or `48`, which read the codes
/// after them as their arguments).
pub proof fn lemma_sgr_list_composes(base: SpanStyle, cur: SpanStyle, q1: Seq<char>, q2: Seq<char>)
    requires
        code_field(q1),
        code_field(q2),
        digits_value(q1) != 38,
        digits_value(q1) != 48,
    ensures
        apply_sgr_spec(base, cur, q1 + seq![';'] + q2) == apply_sgr_spec(
            base,
            apply_sgr_spec(base, cur, q1),
            q2,
        ),
{
    let v1 = digits_value(q1) as u16;
    let v2 = digits_value(q2) as u16;
    assert forall|k: int| 0 <= k < q1.len() implies #[trigger] q1[k] != ';' by {
        assert('0' <= q1[k] <= '9');
    }
    assert forall|k: int| 0 <= k < q2.len() implies #[trigger] q2[k] != ';' by {
        assert('0' <= q2[k] <= '9');
    }
    lemma_codes_digits(q1);
    lemma_codes_digits(q2);
    lemma_codes_split(q1, q2);
    let codes = seq![v1, v2];
    assert(sgr_codes(q1 + seq![';'] + q2) =~= codes);
    lemma_apply_single_code(base, cur, q1, v1);
    let st1 = sgr_step(base, cur, seq![v1], 0).0;
    lemma_apply_single_code(base, st1, q2, v2);
    let (a, na) = sgr_step(base, cur, codes, 0);
    assert(na == 1);
    assert(a == st1);
    let (b, nb) = sgr_step(base, a, codes, 1);
    assert(nb > 1);
    assert(b == sgr_step(base, st1, seq![v2], 0).0);
    assert(sgr_fold(base, a, codes, 1) == b);
    assert(sgr_fold(base, cur, codes, 0) == sgr_fold(base, a, codes, 1));
}

/// The 256-colour foreground: `38;5;n` selects palette entry `n` (taken modulo 256), and nothing
/// else about the style changes.
pub proof fn lemma_sgr_indexed_fg(base: SpanStyle, cur: SpanStyle, q: Seq<char>)
    requires
        code_field(q),
    ensures
        apply_sgr_spec(base, cur, seq!['3', '8', ';', '5', ';'] + q) == (SpanStyle {
            fg: Some(TermColor::Indexed((digits_value(q) as u16) as u8)),
            ..cur
        }),
{
    assert forall|k: int| 0 <= k < q.len() implies #[trigger] q[k] != ';' by {
        assert('0' <= q[k] <= '9');
    }
    lemma_codes_digits(q);
    let q38 = seq!['3', '8'];
    let q5 = seq!['5'];
    assert(q38.drop_last() =~= seq!['3']);
    assert(seq!['3'].drop_last() =~= Seq::<char>::empty());
    assert(digits_value(Seq::<char>::empty()) == 0);
    assert(seq!['3'].last() == '3');
    assert(q38.last() == '8');
    assert(digits_value(seq!['3']) == 3);
    assert(digits_value(q38) == 38);
    assert(q5.drop_last() =~= Seq::<char>::empty());
    assert(q5.last() == '5');
    assert(digits_value(q5) == 5);
    lemma_codes_split(q5, q);
    lemma_codes_split(q38, q5 + seq![';'] + q);
    assert(seq!['3', '8', ';', '5', ';'] + q =~= q38 + seq![';'] + (q5 + seq![';'] + q));
    let codes = seq![38u16, 5u16, digits_value(q) as u16];
    assert(sgr_codes(seq!['3', '8', ';', '5', ';'] + q) =~= codes);
    let (st, next) = sgr_step(base, cur, codes, 0);
    assert(next == 3);
}

} // verus!
