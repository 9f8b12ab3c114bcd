//! Display-column measurement, and clipping / padding plain text to a column budget.

use vstd::prelude::*;

use crate::text::{chars_of, string_of};

verus! {

/// The number of terminal columns that `console::measure_text_width` reports for `s`.
pub uninterp spec fn measured_width(s: Seq<char>) -> usize;

/// Calls `console::measure_text_width`, which removes ANSI escape codes from `s` and returns the
/// Unicode display width of what is left. Claimed: the result depends on the characters of `s`
/// alone and is named `measured_width`; nothing more is stated about its value.
#[verifier::external_body]
pub(crate) fn measure_text_width(s: &str) -> (r: usize)
    ensures
        r == measured_width(s@),
{
    console::measure_text_width(s)
}

/// What `console::measure_text_width` reports for each character of `s` on its own.
pub open spec fn char_widths(s: Seq<char>) -> Seq<usize> {
    Seq::new(s.len(), |k: int| measured_width(seq![s[k]]))
}

/// The measured width given for position `k` of a text (`ws[k]`; zero past the end of `ws`).
pub open spec fn width_at(ws: Seq<usize>, k: int) -> usize {
    if 0 <= k < ws.len() {
        ws[k]
    } else {
        0
    }
}

/// The columns a character of measured width `w` takes when clipping: `w`, at least one.
pub open spec fn given_cols(w: usize) -> nat {
    if w < 1 {
        1
    } else {
        w as nat
    }
}

/// A string holding the single character `c`.
pub fn string_of_char(c: char) -> (s: String)
    ensures
        s@ == seq![c],
{
    let mut s = String::new();
    s.push(c);
    s
}

/// The measured width of each character of `cs`, one character at a time.
pub fn measure_chars(cs: &Vec<char>) -> (ws: Vec<usize>)
    ensures
        ws@ == char_widths(cs@),
{
    let mut ws: Vec<usize> = Vec::new();
    let mut k: usize = 0;
    while k < cs.len()
        invariant
            k <= cs.len(),
            ws@ == char_widths(cs@).take(k as int),
        decreases cs.len() - k,
    {
        let one = string_of_char(cs[k]);
        let m = measure_text_width(one.as_str());
        ws.push(m);
        k = k + 1;
        assert(ws@ =~= char_widths(cs@).take(k as int));
    }
    assert(char_widths(cs@).take(k as int) =~= char_widths(cs@));
    ws
}

/// Where a greedy run of the `n` characters, started at `i`, stops when it may fill `left`
/// columns: the first position whose character no longer fits, the character at position `k`
/// taking `given_cols(ws[k])` columns (or `n` when all fit).
pub open spec fn fit_chars(ws: Seq<usize>, n: int, i: int, left: int) -> int
    decreases n - i,
{
    if 0 <= i < n && given_cols(width_at(ws, i)) <= left {
        fit_chars(ws, n, i + 1, left - given_cols(width_at(ws, i)))
    } else {
        i
    }
}

/// Sum of `given_cols` over positions `i..j`.
pub open spec fn cols_sum(ws: Seq<usize>, i: int, j: int) -> int
    decreases j - i,
{
    if i >= j {
        0
    } else {
        given_cols(width_at(ws, i)) + cols_sum(ws, i + 1, j)
    }
}

/// What `clip_to_measured` makes of `s` when it measures `s_cols` columns in all and its
/// characters measure `ws`.
pub open spec fn clip_spec_with(s: Seq<char>, max: usize, s_cols: usize, ws: Seq<usize>) -> Seq<
    char,
> {
    if max == 0 {
        Seq::empty()
    } else if s_cols <= max {
        s
    } else {
        s.take(fit_chars(ws, s.len() as int, 0, max - 1)).push('…')
    }
}

/// What `clip_to` makes of `s`: the clip with the widths that console measures.
pub open spec fn clip_spec(s: Seq<char>, max: usize) -> Seq<char> {
    clip_spec_with(s, max, measured_width(s), char_widths(s))
}

proof fn lemma_fit_chars_bounds(ws: Seq<usize>, n: int, i: int, left: int)
    requires
        0 <= i <= n,
        left >= 0,
    ensures
        i <= fit_chars(ws, n, i, left) <= n,
        cols_sum(ws, i, fit_chars(ws, n, i, left)) <= left,
    decreases n - i,
{
    if i < n && given_cols(width_at(ws, i)) <= left {
        lemma_fit_chars_bounds(ws, n, i + 1, left - given_cols(width_at(ws, i)));
    }
}

/// Clip a plain string to `max` display columns, ending it with `…` when it would overflow.
pub fn clip_to(s: &str, max: usize) -> (r: String)
    ensures
        r@ == clip_spec(s@, max),
{
    if max == 0 {
        return clip_to_measured(s, max, 0, &Vec::new());
    }
    let s_cols = measure_text_width(s);
    if s_cols <= max {
        return clip_to_measured(s, max, s_cols, &Vec::new());
    }
    let cs = chars_of(s);
    let ws = measure_chars(&cs);
    clip_to_measured(s, max, s_cols, &ws)
}

/// `clip_to` once the text has been measured: `s_cols` is the display width of all of `s` and
/// `widths[k]` that of its `k`-th character (a missing entry counts as zero; every character
/// takes at least one column).
pub fn clip_to_measured(s: &str, max: usize, s_cols: usize, widths: &Vec<usize>) -> (r: String)
    ensures
        r@ == clip_spec_with(s@, max, s_cols, widths@),
{
    if max == 0 {
        return String::new();
    }
    if s_cols <= max {
        return string_of(chars_of(s).as_slice());
    }
    let cs = chars_of(s);
    let ghost n = cs.len() as int;
    let budget: usize = max - 1;
    let mut out: Vec<char> = Vec::new();
    let mut w: usize = 0;
    let mut i: usize = 0;
    while i < cs.len()
        invariant
            i <= cs.len(),
            cs@ == s@,
            n == cs.len(),
            w <= budget,
            budget == max - 1,
            out@ == cs@.take(i as int),
            fit_chars(widths@, n, i as int, budget - w) == fit_chars(widths@, n, 0, budget as int),
        ensures
            i == fit_chars(widths@, n, 0, budget as int),
            out@ == cs@.take(i as int),
        decreases cs.len() - i,
    {
        let given: usize = if i < widths.len() {
            widths[i]
        } else {
            0
        };
        let cw: usize = if given < 1 {
            1
        } else {
            given
        };
        assert(cw == given_cols(width_at(widths@, i as int)));
        if cw > budget - w {
            break;
        }
        out.push(cs[i]);
        w = w + cw;
        i = i + 1;
    }
    out.push('…');
    string_of(out.as_slice())
}

/// A run of `n` spaces.
pub open spec fn spaces(n: nat) -> Seq<char> {
    Seq::new(n, |k: int| ' ')
}

/// `clipped` right-padded with spaces to `width` columns when it measures `cols`.
pub open spec fn pad_spec_with(clipped: Seq<char>, width: usize, cols: usize) -> Seq<char> {
    clipped + spaces(if cols < width { (width - cols) as nat } else { 0 })
}

/// What `pad_to` makes of `s`.
pub open spec fn pad_spec(s: Seq<char>, width: usize) -> Seq<char> {
    let clipped = clip_spec(s, width);
    pad_spec_with(clipped, width, measured_width(clipped))
}

/// Clip then right-pad a plain string to `width` display columns (for a box header).
pub fn pad_to(s: &str, width: usize) -> (r: String)
    ensures
        r@ == pad_spec(s@, width),
{
    let clipped = clip_to(s, width);
    let w = measure_text_width(clipped.as_str());
    pad_measured(clipped.as_str(), width, w)
}

/// The padding step of `pad_to`: `clipped`, which measures `cols` display columns, followed by
/// the spaces that bring it to `width` (none when it already reaches it).
pub fn pad_measured(clipped: &str, width: usize, cols: usize) -> (r: String)
    ensures
        r@ == pad_spec_with(clipped@, width, cols),
{
    let n: usize = if cols < width { width - cols } else { 0 };
    let mut out = chars_of(clipped);
    let ghost base = out@;
    let mut k: usize = 0;
    while k < n
        invariant
            k <= n,
            out@ == base + spaces(k as nat),
        decreases n - k,
    {
        out.push(' ');
        k = k + 1;
        assert(base + spaces(k as nat) == (base + spaces((k - 1) as nat)).push(' '));
    }
    string_of(out.as_slice())
}

/// Clipping law: an overflowing string keeps a prefix whose columns fit in `max - 1`, followed
/// by one `…`.
pub proof fn lemma_clip_fits(s: Seq<char>, max: usize, s_cols: usize, ws: Seq<usize>)
    requires
        max > 0,
        s_cols > max,
    ensures
        clip_spec_with(s, max, s_cols, ws).last() == '…',
        clip_spec_with(s, max, s_cols, ws).drop_last() =~= s.take(
            fit_chars(ws, s.len() as int, 0, max - 1),
        ),
        cols_sum(ws, 0, fit_chars(ws, s.len() as int, 0, max - 1)) <= max - 1,
        fit_chars(ws, s.len() as int, 0, max - 1) <= s.len(),
{
    lemma_fit_chars_bounds(ws, s.len() as int, 0, max - 1);
}


/// Padding fills the box to its width in display columns: the clipped text comes first,
/// followed only by spaces, and there are exactly as many spaces as the clip's measured width
/// falls short of `width` (none when it reaches it), so the text and its padding measure
/// `width` columns together.
pub proof fn lemma_pad_fills_width(s: Seq<char>, width: usize)
    ensures
        ({
            let clipped = clip_spec(s, width);
            let w = measured_width(clipped);
            let r = pad_spec(s, width);
            &&& r.len() >= clipped.len()
            &&& r.subrange(0, clipped.len() as int) == clipped
            &&& forall|k: int| clipped.len() <= k < r.len() ==> #[trigger] r[k] == ' '
            &&& w < width ==> w + (r.len() - clipped.len()) == width
            &&& w >= width ==> r == clipped
        }),
{
    let clipped = clip_spec(s, width);
    let w = measured_width(clipped);
    let r = pad_spec(s, width);
    let n: nat = if w < width { (width - w) as nat } else { 0 };
    assert(r == clipped + spaces(n));
    assert(r.subrange(0, clipped.len() as int) =~= clipped);
    assert forall|k: int| clipped.len() <= k < r.len() implies #[trigger] r[k] == ' ' by {
        assert(r[k] == spaces(n)[k - clipped.len()]);
    }
    if w >= width {
        assert(r =~= clipped);
    }
}


proof fn lemma_fit_chars_maximal(ws: Seq<usize>, n: int, i: int, left: int)
    requires
        0 <= i <= n,
    ensures
        fit_chars(ws, n, i, left) < n ==> cols_sum(ws, i, fit_chars(ws, n, i, left)) + given_cols(
            width_at(ws, fit_chars(ws, n, i, left)),
        ) > left,
    decreases n - i,
{
    if i < n && given_cols(width_at(ws, i)) <= left {
        lemma_fit_chars_maximal(ws, n, i + 1, left - given_cols(width_at(ws, i)));
        lemma_fit_chars_bounds(ws, n, i + 1, left - given_cols(width_at(ws, i)));
        let f = fit_chars(ws, n, i + 1, left - given_cols(width_at(ws, i)));
        assert(cols_sum(ws, i, f) == given_cols(width_at(ws, i)) + cols_sum(ws, i + 1, f));
    }
}

/// Clipping by display columns: nothing for a zero width, the text itself when it fits, and
/// otherwise the longest prefix whose characters (each taking its measured width, at least one
/// column) fit in `max - 1` columns, followed by `…`: the next character would not have fitted.
pub proof fn lemma_clip_greedy(s: Seq<char>, max: usize)
    ensures
        max == 0 ==> clip_spec(s, max) == Seq::<char>::empty(),
        max > 0 && measured_width(s) <= max ==> clip_spec(s, max) == s,
        max > 0 && measured_width(s) > max ==> exists|f: int|
            #![trigger s.take(f)]
            {
                &&& 0 <= f <= s.len()
                &&& clip_spec(s, max) == s.take(f).push('…')
                &&& cols_sum(char_widths(s), 0, f) <= max - 1
                &&& f < s.len() ==> cols_sum(char_widths(s), 0, f) + given_cols(
                    measured_width(seq![s[f]]),
                ) > max - 1
            },
{
    if max > 0 && measured_width(s) > max {
        let ws = char_widths(s);
        let n = s.len() as int;
        let f = fit_chars(ws, n, 0, max - 1);
        lemma_fit_chars_bounds(ws, n, 0, max - 1);
        lemma_fit_chars_maximal(ws, n, 0, max - 1);
        if f < n {
            assert(width_at(ws, f) == measured_width(seq![s[f]]));
        }
        assert(clip_spec(s, max) == s.take(f).push('…'));
    }
}

} // verus!
