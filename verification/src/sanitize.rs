//! Making text from elsewhere safe for a retained frame: control sequences that could move the
//! cursor or clear the screen are removed; colour (SGR) sequences may be kept.

use vstd::prelude::*;

use crate::csi::{csi_end, esc, is_param_char, lemma_csi_end_bounds, params_ok, sgr_seq};
use crate::text::{chars_of, push_range, string_of};

verus! {

/// The Unicode general category `Cc` (control characters).
pub open spec fn is_control(c: char) -> bool {
    let n = c as u32;
    n < 0x20 || (0x7f <= n && n <= 0x9f)
}

/// An ASCII letter.
pub open spec fn is_ascii_alpha(c: char) -> bool {
    ('A' <= c && c <= 'Z') || ('a' <= c && c <= 'z')
}

/// Executable `is_control`.
pub fn control_char(c: char) -> (r: bool)
    ensures
        r == is_control(c),
{
    let n: u32 = c as u32;
    n < 0x20 || (0x7f <= n && n <= 0x9f)
}

/// The first ASCII letter at or after `j`, or `s.len()`: where a control sequence ends.
pub open spec fn alpha_end(s: Seq<char>, j: int) -> int
    decreases s.len() - j,
{
    if j < 0 || j >= s.len() {
        s.len() as int
    } else if is_ascii_alpha(s[j]) {
        j
    } else {
        alpha_end(s, j + 1)
    }
}

pub proof fn lemma_alpha_end(s: Seq<char>, j: int)
    requires
        0 <= j,
    ensures
        j <= alpha_end(s, j) || alpha_end(s, j) == s.len(),
        alpha_end(s, j) <= s.len(),
    decreases s.len() - j,
{
    if j < s.len() && !is_ascii_alpha(s[j]) {
        lemma_alpha_end(s, j + 1);
    }
}

/// Four spaces: what a tab becomes.
pub open spec fn tab_spaces() -> Seq<char> {
    seq![' ', ' ', ' ', ' ']
}

/// The characters `s[a..b]` are all digits or `;`: an SGR parameter list.
pub open spec fn params_only(s: Seq<char>, a: int, b: int) -> bool {
    forall|k: int| a <= k < b ==> is_param_char(#[trigger] s[k])
}

/// `s` from position `i` on, sanitised: a control sequence `ESC [ … letter` runs to its first
/// ASCII letter; it is kept whole when that letter is `m` and everything between `ESC [` and
/// the `m` is digits and `;` (a plain SGR colour sequence), and dropped otherwise (an
/// unterminated one runs to the end and is dropped); any other escape is dropped with the one
/// character after it; newlines stay, tabs become four spaces, and every other control character
/// is dropped.
pub open spec fn sanitize_from(s: Seq<char>, i: int) -> Seq<char>
    decreases s.len() - i,
    via sanitize_from_decreases
{
    if i < 0 || i >= s.len() {
        Seq::empty()
    } else if s[i] == esc() {
        if i + 1 < s.len() && s[i + 1] == '[' {
            let e = alpha_end(s, i + 2);
            if e < s.len() {
                let kept = if s[e] == 'm' && params_only(s, i + 2, e) {
                    s.subrange(i, e + 1)
                } else {
                    Seq::empty()
                };
                kept + sanitize_from(s, e + 1)
            } else {
                Seq::empty()
            }
        } else if i + 1 < s.len() {
            sanitize_from(s, i + 2)
        } else {
            Seq::empty()
        }
    } else if s[i] == '\n' {
        seq!['\n'] + sanitize_from(s, i + 1)
    } else if s[i] == '\t' {
        tab_spaces() + sanitize_from(s, i + 1)
    } else if !is_control(s[i]) {
        seq![s[i]] + sanitize_from(s, i + 1)
    } else {
        sanitize_from(s, i + 1)
    }
}

#[via_fn]
proof fn sanitize_from_decreases(s: Seq<char>, i: int) {
    if 0 <= i {
        lemma_alpha_end(s, i + 2);
    }
}

/// Strip terminal control sequences that would corrupt the retained frame (cursor moves, screen
/// erase, save/restore, carriage returns) but keep plain colour/SGR sequences (`ESC [`, digits
/// and `;`, `m`) so the spans parser can turn them into styles.
pub fn sanitize_keep_sgr(input: &str) -> (r: String)
    ensures
        r@ == sanitize_from(input@, 0),
{
    let cs = chars_of(input);
    let n = cs.len();
    let mut out: Vec<char> = Vec::new();
    let mut i: usize = 0;
    while i < n
        invariant
            n == cs.len(),
            cs@ == input@,
            i <= n,
            out@ + sanitize_from(cs@, i as int) == sanitize_from(cs@, 0),
        decreases n - i,
    {
        let c = cs[i];
        let ghost before = out@;
        let ghost rest = sanitize_from(cs@, i as int);
        if c == '\x1b' {
            if i + 1 < n && cs[i + 1] == '[' {
                proof {
                    lemma_alpha_end(cs@, i + 2);
                }
                let mut j: usize = i + 2;
                while j < n && !(('A' <= cs[j] && cs[j] <= 'Z') || ('a' <= cs[j] && cs[j] <= 'z'))
                    invariant
                        i + 2 <= j <= n,
                        n == cs.len(),
                        alpha_end(cs@, j as int) == alpha_end(cs@, i + 2),
                    decreases n - j,
                {
                    j = j + 1;
                }
                if j < n {
                    if cs[j] == 'm' {
                        let mut k: usize = i + 2;
                        while k < j && (('0' <= cs[k] && cs[k] <= '9') || cs[k] == ';')
                            invariant
                                i + 2 <= k <= j,
                                j < n,
                                n == cs.len(),
                                params_only(cs@, i + 2, k as int),
                            decreases j - k,
                        {
                            k = k + 1;
                        }
                        if k == j {
                            push_range(&mut out, cs.as_slice(), i, j + 1);
                        } else {
                            assert(!is_param_char(cs@[k as int]));
                        }
                    }
                    assert(before + rest =~= out@ + sanitize_from(cs@, j + 1));
                    i = j + 1;
                } else {
                    assert(before + rest =~= out@ + sanitize_from(cs@, n as int));
                    i = n;
                }
            } else if i + 1 < n {
                i = i + 2;
            } else {
                assert(before + rest =~= out@ + sanitize_from(cs@, n as int));
                i = n;
            }
        } else if c == '\n' {
            out.push('\n');
            assert(before + rest =~= out@ + sanitize_from(cs@, i + 1));
            i = i + 1;
        } else if c == '\t' {
            out.push(' ');
            out.push(' ');
            out.push(' ');
            out.push(' ');
            assert(before + rest =~= out@ + sanitize_from(cs@, i + 1));
            i = i + 1;
        } else if !control_char(c) {
            out.push(c);
            assert(before + rest =~= out@ + sanitize_from(cs@, i + 1));
            i = i + 1;
        } else {
            i = i + 1;
        }
    }
    assert(out@ + sanitize_from(cs@, n as int) =~= out@);
    string_of(out.as_slice())
}

/// What `console::strip_ansi_codes` leaves of `s`.
pub uninterp spec fn ansi_stripped(s: Seq<char>) -> Seq<char>;

/// Calls `console::strip_ansi_codes`, which removes the ANSI escape codes from `s`. Claimed: the
/// result depends on the characters of `s` alone and is named `ansi_stripped`; and, as the
/// source shows (matches only start at `U+001B` or `U+009B`), text holding neither of those
/// characters comes back unchanged.
#[verifier::external_body]
pub(crate) fn strip_ansi_codes(s: &str) -> (r: String)
    ensures
        r@ == ansi_stripped(s@),
        (forall|k: int| 0 <= k < s@.len() ==> #[trigger] s@[k] != '\x1b' && s@[k] != '\u{9b}')
            ==> r@ == s@,
{
    console::strip_ansi_codes(s).into_owned()
}

/// Strip all terminal control sequences, colour/SGR included, leaving printable text only.
/// Input without escape characters comes out as `sanitize_keep_sgr` leaves it.
pub fn sanitize_text(input: &str) -> (r: String)
    ensures
        r@ == ansi_stripped(sanitize_from(input@, 0)),
        (forall|k: int| 0 <= k < input@.len() ==> #[trigger] input@[k] != esc()) ==> r@
            == sanitize_from(input@, 0),
{
    let kept = sanitize_keep_sgr(input);
    proof {
        if forall|k: int| 0 <= k < input@.len() ==> #[trigger] input@[k] != esc() {
            lemma_sanitize_no_esc(input@, 0);
            let t = kept@;
            assert forall|k: int| 0 <= k < t.len() implies #[trigger] t[k] != '\x1b' && t[k]
                != '\u{9b}' by {
                assert(!is_control(t[k]) || t[k] == '\n');
            }
        }
    }
    strip_ansi_codes(kept.as_str())
}

proof fn lemma_sanitize_plain(s: Seq<char>, i: int)
    requires
        0 <= i <= s.len(),
        forall|k: int| i <= k < s.len() ==> !is_control(#[trigger] s[k]) || s[k] == '\n',
    ensures
        sanitize_from(s, i) == s.skip(i),
    decreases s.len() - i,
{
    if i < s.len() {
        lemma_sanitize_plain(s, i + 1);
        assert(s.skip(i) =~= seq![s[i]] + s.skip(i + 1));
    } else {
        assert(s.skip(i) =~= Seq::<char>::empty());
    }
}

/// Text made only of printable characters and newlines passes through unchanged.
pub proof fn lemma_sanitize_printable(s: Seq<char>)
    requires
        forall|k: int| 0 <= k < s.len() ==> !is_control(#[trigger] s[k]) || s[k] == '\n',
    ensures
        sanitize_from(s, 0) == s,
{
    lemma_sanitize_plain(s, 0);
    assert(s.skip(0) =~= s);
}

proof fn lemma_sanitize_no_esc(s: Seq<char>, i: int)
    requires
        0 <= i <= s.len(),
        forall|k: int| i <= k < s.len() ==> #[trigger] s[k] != esc(),
    ensures
        forall|k: int|
            0 <= k < sanitize_from(s, i).len() ==> !is_control(#[trigger] sanitize_from(s, i)[k])
                || sanitize_from(s, i)[k] == '\n',
    decreases s.len() - i,
{
    if i < s.len() {
        lemma_sanitize_no_esc(s, i + 1);
        let r = sanitize_from(s, i + 1);
        if s[i] == '\n' {
            assert(forall|k: int| 0 < k < r.len() + 1 ==> (seq!['\n'] + r)[k] == r[k - 1]);
        } else if s[i] == '\t' {
            assert(forall|k: int| 4 <= k < r.len() + 4 ==> (tab_spaces() + r)[k] == r[k - 4]);
        } else if !is_control(s[i]) {
            assert(forall|k: int| 0 < k < r.len() + 1 ==> (seq![s[i]] + r)[k] == r[k - 1]);
        }
    }
}

/// Without escape characters in the input, the sanitised text holds no control character but
/// newlines, so stripping ANSI codes from it changes nothing: `sanitize_text` and
/// `sanitize_keep_sgr` agree.
pub proof fn lemma_sanitize_without_escapes(s: Seq<char>)
    requires
        forall|k: int| 0 <= k < s.len() ==> #[trigger] s[k] != esc(),
    ensures
        forall|k: int|
            0 <= k < sanitize_from(s, 0).len() ==> !is_control(#[trigger] sanitize_from(s, 0)[k])
                || sanitize_from(s, 0)[k] == '\n',
{
    lemma_sanitize_no_esc(s, 0);
}


/// Text that holds nothing but printable characters, newlines, and plain SGR sequences
/// `ESC [ params m` with digits and `;` as the only parameter characters.
pub open spec fn is_safe_text(r: Seq<char>) -> bool
    decreases r.len(),
    via is_safe_text_decreases
{
    if r.len() == 0 {
        true
    } else if r[0] == esc() {
        let e = csi_end(r, 2);
        &&& r.len() > 1
        &&& r[1] == '['
        &&& e < r.len()
        &&& r[e] == 'm'
        &&& is_safe_text(r.skip(e + 1))
    } else {
        &&& (!is_control(r[0]) || r[0] == '\n')
        &&& is_safe_text(r.drop_first())
    }
}

#[via_fn]
proof fn is_safe_text_decreases(r: Seq<char>) {
    lemma_csi_end_bounds(r, 2);
}

proof fn lemma_csi_end_at(s: Seq<char>, j: int, m: int)
    requires
        0 <= j <= m < s.len(),
        params_only(s, j, m),
        !is_param_char(s[m]),
    ensures
        csi_end(s, j) == m,
    decreases m - j,
{
    if j < m {
        assert(is_param_char(s[j]));
        lemma_csi_end_at(s, j + 1, m);
    }
}

proof fn lemma_alpha_end_at(s: Seq<char>, j: int, m: int)
    requires
        0 <= j <= m < s.len(),
        params_only(s, j, m),
        is_ascii_alpha(s[m]),
    ensures
        alpha_end(s, j) == m,
    decreases m - j,
{
    if j < m {
        assert(is_param_char(s[j]));
        lemma_alpha_end_at(s, j + 1, m);
    }
}

proof fn lemma_safe_prepend_char(c: char, rest: Seq<char>)
    requires
        c != esc(),
        !is_control(c) || c == '\n',
        is_safe_text(rest),
    ensures
        is_safe_text(seq![c] + rest),
{
    assert((seq![c] + rest).drop_first() =~= rest);
}

proof fn lemma_safe_prepend_sgr(piece: Seq<char>, rest: Seq<char>)
    requires
        piece.len() >= 3,
        piece[0] == esc(),
        piece[1] == '[',
        params_only(piece, 2, piece.len() - 1),
        piece.last() == 'm',
        is_safe_text(rest),
    ensures
        is_safe_text(piece + rest),
{
    let r = piece + rest;
    let m = piece.len() - 1;
    assert(params_only(r, 2, m)) by {
        assert forall|k: int| 2 <= k < m implies is_param_char(#[trigger] r[k]) by {
            assert(r[k] == piece[k]);
        }
    }
    assert(r[m] == 'm');
    lemma_csi_end_at(r, 2, m);
    assert(r.skip(piece.len() as int) =~= rest);
}

proof fn lemma_sanitize_safe(s: Seq<char>, i: int)
    requires
        0 <= i,
    ensures
        is_safe_text(sanitize_from(s, i)),
    decreases s.len() - i,
{
    if i < s.len() {
        if s[i] == esc() {
            if i + 1 < s.len() && s[i + 1] == '[' {
                let e = alpha_end(s, i + 2);
                lemma_alpha_end(s, i + 2);
                if e < s.len() {
                    lemma_sanitize_safe(s, e + 1);
                    if s[e] == 'm' && params_only(s, i + 2, e) {
                        let piece = s.subrange(i, e + 1);
                        assert(params_only(piece, 2, piece.len() - 1)) by {
                            assert forall|k: int| 2 <= k < piece.len() - 1 implies is_param_char(
                                #[trigger] piece[k],
                            ) by {
                                assert(piece[k] == s[i + k]);
                            }
                        }
                        lemma_safe_prepend_sgr(piece, sanitize_from(s, e + 1));
                    } else {
                        assert(Seq::<char>::empty() + sanitize_from(s, e + 1) =~= sanitize_from(
                            s,
                            e + 1,
                        ));
                    }
                }
            } else if i + 1 < s.len() {
                lemma_sanitize_safe(s, i + 2);
            }
        } else {
            lemma_sanitize_safe(s, i + 1);
            let rest = sanitize_from(s, i + 1);
            if s[i] == '\n' {
                lemma_safe_prepend_char('\n', rest);
            } else if s[i] == '\t' {
                lemma_safe_prepend_char(' ', rest);
                lemma_safe_prepend_char(' ', seq![' '] + rest);
                lemma_safe_prepend_char(' ', seq![' '] + (seq![' '] + rest));
                lemma_safe_prepend_char(' ', seq![' '] + (seq![' '] + (seq![' '] + rest)));
                assert(tab_spaces() + rest =~= seq![' '] + (seq![' '] + (seq![' '] + (seq![' ']
                    + rest))));
            } else if !is_control(s[i]) {
                lemma_safe_prepend_char(s[i], rest);
            }
        }
    }
}

proof fn lemma_safe_fixed(r: Seq<char>, i: int)
    requires
        0 <= i <= r.len(),
        is_safe_text(r.skip(i)),
    ensures
        sanitize_from(r, i) == r.skip(i),
    decreases r.len() - i,
{
    let t = r.skip(i);
    if i < r.len() {
        assert(t[0] == r[i]);
        if r[i] == esc() {
            let e2 = csi_end(t, 2);
            lemma_csi_end_bounds(t, 2);
            assert(t[1] == r[i + 1]);
            let e = e2 + i;
            assert(params_only(r, i + 2, e)) by {
                assert forall|k: int| i + 2 <= k < e implies is_param_char(#[trigger] r[k]) by {
                    assert(r[k] == t[k - i]);
                }
            }
            assert(r[e] == t[e2]);
            lemma_alpha_end_at(r, i + 2, e);
            assert(t.skip(e2 + 1) =~= r.skip(e + 1));
            lemma_safe_fixed(r, e + 1);
            assert(r.skip(i) =~= r.subrange(i, e + 1) + r.skip(e + 1));
        } else {
            assert(t.drop_first() =~= r.skip(i + 1));
            lemma_safe_fixed(r, i + 1);
            if r[i] == '\t' {
                assert(is_control(r[i]));
            }
            assert(r.skip(i) =~= seq![r[i]] + r.skip(i + 1));
        }
    } else {
        assert(r.skip(i) =~= Seq::<char>::empty());
    }
}

proof fn lemma_safe_no_cr(r: Seq<char>)
    requires
        is_safe_text(r),
    ensures
        forall|k: int| 0 <= k < r.len() ==> #[trigger] r[k] != '\r',
        forall|k: int|
            0 <= k < r.len() && #[trigger] r[k] == esc() ==> k + 1 < r.len() && r[k + 1] == '['
                && csi_end(r, k + 2) < r.len() && r[csi_end(r, k + 2)] == 'm',
    decreases r.len(),
{
    if r.len() > 0 {
        if r[0] == esc() {
            let e = csi_end(r, 2);
            lemma_csi_end_bounds(r, 2);
            let t = r.skip(e + 1);
            lemma_safe_no_cr(t);
            assert forall|k: int| 0 <= k < r.len() implies #[trigger] r[k] != '\r' by {
                if k > e {
                    assert(r[k] == t[k - e - 1]);
                } else if 2 <= k < e {
                    assert(is_param_char(r[k]));
                }
            }
            assert forall|k: int|
                0 <= k < r.len() && #[trigger] r[k] == esc() implies k + 1 < r.len() && r[k + 1]
                    == '[' && csi_end(r, k + 2) < r.len() && r[csi_end(r, k + 2)] == 'm' by {
                if k > e {
                    assert(r[k] == t[k - e - 1]);
                    assert(r[k + 1] == t[k - e]);
                    lemma_csi_end_skip(r, e + 1, k - e - 1 + 2);
                    lemma_csi_end_bounds(t, k - e + 1);
                    assert(r[csi_end(r, k + 2)] == t[csi_end(t, k - e + 1)]);
                } else if 2 <= k < e {
                    assert(is_param_char(r[k]));
                } else if k == e {
                    assert(r[k] == 'm');
                } else if k == 1 {
                    assert(r[1] == '[');
                }
            }
        } else {
            let t = r.drop_first();
            assert(t =~= r.skip(1));
            lemma_safe_no_cr(t);
            assert forall|k: int| 0 <= k < r.len() implies #[trigger] r[k] != '\r' by {
                if k > 0 {
                    assert(r[k] == t[k - 1]);
                }
            }
            assert forall|k: int|
                0 <= k < r.len() && #[trigger] r[k] == esc() implies k + 1 < r.len() && r[k + 1]
                    == '[' && csi_end(r, k + 2) < r.len() && r[csi_end(r, k + 2)] == 'm' by {
                assert(k > 0);
                assert(r[k] == t[k - 1]);
                assert(t[k - 1] == esc());
                assert(r[k + 1] == t[k]);
                lemma_csi_end_skip(r, 1, k + 1);
                lemma_csi_end_bounds(t, k + 1);
                assert(r[csi_end(r, k + 2)] == t[csi_end(t, k + 1)]);
            }
        }
    }
}

proof fn lemma_csi_end_skip(r: Seq<char>, i: int, j: int)
    requires
        0 <= i <= r.len(),
        0 <= j,
    ensures
        csi_end(r.skip(i), j) + i == csi_end(r, i + j),
    decreases r.len() - i - j,
{
    let t = r.skip(i);
    if j < t.len() {
        assert(t[j] == r[i + j]);
        if is_param_char(t[j]) {
            lemma_csi_end_skip(r, i, j + 1);
        }
    }
}

/// Sanitised text holds nothing but printable characters, newlines and plain SGR sequences
/// (`ESC [ digits-and-; m`): no carriage return survives, and every escape opens such a
/// sequence, so nothing that moves the cursor, erases, or saves/restores the cursor survives.
pub proof fn lemma_sanitize_is_safe(s: Seq<char>)
    ensures
        is_safe_text(sanitize_from(s, 0)),
        forall|k: int| 0 <= k < sanitize_from(s, 0).len() ==> #[trigger] sanitize_from(s, 0)[k] != '\r',
        forall|k: int|
            0 <= k < sanitize_from(s, 0).len() && #[trigger] sanitize_from(s, 0)[k] == esc() ==> {
                let r = sanitize_from(s, 0);
                &&& k + 1 < r.len()
                &&& r[k + 1] == '['
                &&& csi_end(r, k + 2) < r.len()
                &&& r[csi_end(r, k + 2)] == 'm'
            },
{
    lemma_sanitize_safe(s, 0);
    lemma_safe_no_cr(sanitize_from(s, 0));
}

/// Sanitising is idempotent: sanitised text passes through a second time unchanged.
pub proof fn lemma_sanitize_idempotent(s: Seq<char>)
    ensures
        sanitize_from(sanitize_from(s, 0), 0) == sanitize_from(s, 0),
{
    let r = sanitize_from(s, 0);
    lemma_sanitize_safe(s, 0);
    assert(r.skip(0) =~= r);
    lemma_safe_fixed(r, 0);
}


/// Colour survives sanitising: a plain SGR sequence `ESC [ p m` (digits and `;` between `ESC [`
/// and `m`) at position `i` is kept as it is, and sanitising goes on right after it.
pub proof fn lemma_sanitize_keeps_sgr(s: Seq<char>, i: int, p: Seq<char>)
    requires
        0 <= i,
        i + p.len() + 3 <= s.len(),
        params_ok(p),
        s.subrange(i, i + p.len() + 3) == sgr_seq(p),
    ensures
        sanitize_from(s, i) == sgr_seq(p) + sanitize_from(s, i + p.len() + 3),
{
    let q = sgr_seq(p);
    let m = i + 2 + p.len();
    assert(s[i] == q[0]);
    assert(s[i + 1] == q[1]);
    assert(s[m] == q[m - i]);
    assert forall|k: int| i + 2 <= k < m implies is_param_char(#[trigger] s[k]) by {
        assert(s[k] == q[k - i]);
        assert(q[k - i] == p[k - i - 2]);
    }
    lemma_alpha_end_at(s, i + 2, m);
    assert(s.subrange(i, m + 1) == q);
}

/// A control sequence `ESC [ … letter` that is not a plain SGR sequence (its letter is not `m`,
/// or something other than digits and `;` stands before it) is dropped whole.
pub proof fn lemma_sanitize_drops_other_csi(s: Seq<char>, i: int, e: int)
    requires
        0 <= i,
        i + 2 <= e < s.len(),
        s[i] == esc(),
        s[i + 1] == '[',
        is_ascii_alpha(s[e]),
        forall|k: int| i + 2 <= k < e ==> !is_ascii_alpha(#[trigger] s[k]),
        !(s[e] == 'm' && params_only(s, i + 2, e)),
    ensures
        sanitize_from(s, i) == sanitize_from(s, e + 1),
{
    lemma_alpha_end_first(s, i + 2, e);
    assert(Seq::<char>::empty() + sanitize_from(s, e + 1) =~= sanitize_from(s, e + 1));
}

proof fn lemma_alpha_end_first(s: Seq<char>, j: int, e: int)
    requires
        0 <= j <= e < s.len(),
        is_ascii_alpha(s[e]),
        forall|k: int| j <= k < e ==> !is_ascii_alpha(#[trigger] s[k]),
    ensures
        alpha_end(s, j) == e,
    decreases e - j,
{
    if j < e {
        lemma_alpha_end_first(s, j + 1, e);
    }
}

} // verus!
