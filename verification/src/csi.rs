//! Recognising the `ESC [ params final` control sequences in a row of text.

use vstd::prelude::*;

verus! {

/// The escape character that opens every control sequence.
pub open spec fn esc() -> char {
    '\x1b'
}

/// A character that may stand in the parameter list of an SGR sequence.
pub open spec fn is_param_char(c: char) -> bool {
    ('0' <= c && c <= '9') || c == ';'
}

/// A control sequence introducer (`ESC [`) starts at position `i` of `s`.
pub open spec fn csi_at(s: Seq<char>, i: int) -> bool {
    &&& 0 <= i
    &&& i + 1 < s.len()
    &&& s[i] == esc()
    &&& s[i + 1] == '['
}

/// The position of the first character at or after `j` that is not a parameter character, or
/// `s.len()` when there is none: the final byte of a sequence whose parameters start at `j`.
pub open spec fn csi_end(s: Seq<char>, j: int) -> int
    decreases s.len() - j,
{
    if j < 0 || j >= s.len() {
        s.len() as int
    } else if !is_param_char(s[j]) {
        j
    } else {
        csi_end(s, j + 1)
    }
}

/// Where scanning resumes after a control sequence that starts at `i`.
pub open spec fn csi_next(s: Seq<char>, i: int) -> int {
    let e = csi_end(s, i + 2);
    if e < s.len() {
        e + 1
    } else {
        s.len() as int
    }
}

/// The control sequence at `i` ends in `m`: it is an SGR (colour / emphasis) sequence.
pub open spec fn csi_is_sgr(s: Seq<char>, i: int) -> bool {
    let e = csi_end(s, i + 2);
    e < s.len() && s[e] == 'm'
}

/// The parameter characters of the control sequence at `i`.
pub open spec fn csi_params(s: Seq<char>, i: int) -> Seq<char> {
    s.subrange(i + 2, csi_end(s, i + 2))
}

pub proof fn lemma_csi_end_bounds(s: Seq<char>, j: int)
    requires
        0 <= j,
    ensures
        j <= csi_end(s, j) || (j > s.len() && csi_end(s, j) == s.len()),
        csi_end(s, j) <= s.len(),
        forall|k: int| j <= k < csi_end(s, j) ==> is_param_char(#[trigger] s[k]),
        csi_end(s, j) < s.len() ==> !is_param_char(s[csi_end(s, j)]),
    decreases s.len() - j,
{
    if j < s.len() && is_param_char(s[j]) {
        lemma_csi_end_bounds(s, j + 1);
    }
}

/// Executable `csi_end`.
pub fn scan_params(cs: &[char], j: usize) -> (r: usize)
    requires
        j <= cs.len(),
    ensures
        r == csi_end(cs@, j as int),
        j <= r <= cs.len(),
{
    let mut k: usize = j;
    while k < cs.len() && (('0' <= cs[k] && cs[k] <= '9') || cs[k] == ';')
        invariant
            j <= k <= cs.len(),
            csi_end(cs@, k as int) == csi_end(cs@, j as int),
        decreases cs.len() - k,
    {
        k = k + 1;
    }
    k
}


/// The text of `s` from position `i` on with every control sequence (`ESC [ params final`)
/// taken out.
pub open spec fn visible_from(s: Seq<char>, i: int) -> Seq<char>
    decreases s.len() - i,
    via visible_from_decreases
{
    if i < 0 || i >= s.len() {
        Seq::empty()
    } else if csi_at(s, i) {
        visible_from(s, csi_next(s, i))
    } else {
        seq![s[i]] + visible_from(s, i + 1)
    }
}

#[via_fn]
proof fn visible_from_decreases(s: Seq<char>, i: int) {
    if 0 <= i {
        lemma_csi_end_bounds(s, i + 2);
    }
}

/// `s` has no escape character at or after `i`.
pub open spec fn no_esc_from(s: Seq<char>, i: int) -> bool {
    forall|k: int| i <= k < s.len() ==> #[trigger] s[k] != esc()
}

/// Text without escape characters is all visible.
pub proof fn lemma_visible_plain(s: Seq<char>, i: int)
    requires
        0 <= i <= s.len(),
        no_esc_from(s, i),
    ensures
        visible_from(s, i) == s.skip(i),
    decreases s.len() - i,
{
    if i < s.len() {
        lemma_visible_plain(s, i + 1);
        assert(s.skip(i) =~= seq![s[i]] + s.skip(i + 1));
    } else {
        assert(s.skip(i) =~= Seq::<char>::empty());
    }
}


/// The SGR sequence `ESC [ p m`.
pub open spec fn sgr_seq(p: Seq<char>) -> Seq<char> {
    seq![esc(), '['] + p + seq!['m']
}

/// Every character of `p` may stand in an SGR parameter list.
pub open spec fn params_ok(p: Seq<char>) -> bool {
    forall|k: int| 0 <= k < p.len() ==> is_param_char(#[trigger] p[k])
}

/// An SGR sequence `ESC [ p m` written at position `i` of `s` is recognised as one: a control
/// sequence that ends in `m`, whose parameters are `p`, after which scanning resumes just past
/// the `m`.
pub proof fn lemma_sgr_at(s: Seq<char>, i: int, p: Seq<char>)
    requires
        0 <= i,
        i + p.len() + 3 <= s.len(),
        params_ok(p),
        s.subrange(i, i + p.len() + 3) == sgr_seq(p),
    ensures
        csi_at(s, i),
        csi_end(s, i + 2) == i + 2 + p.len(),
        csi_is_sgr(s, i),
        csi_params(s, i) == p,
        csi_next(s, i) == i + p.len() + 3,
{
    let q = sgr_seq(p);
    assert(s[i] == q[0]);
    assert(s[i + 1] == q[1]);
    assert forall|k: int| i + 2 <= k < i + 2 + p.len() implies is_param_char(#[trigger] s[k]) by {
        assert(s[k] == q[k - i]);
        assert(q[k - i] == p[k - i - 2]);
    }
    assert(s[i + 2 + p.len()] == q[2 + p.len() as int]);
    lemma_csi_end_run(s, i + 2, i + 2 + p.len());
    assert forall|k: int| 0 <= k < p.len() implies s.subrange(i + 2, i + 2 + p.len())[k] == p[k] by {
        assert(s[i + 2 + k] == q[k + 2]);
    }
    assert(s.subrange(i + 2, i + 2 + p.len()) =~= p);
}

proof fn lemma_csi_end_run(s: Seq<char>, j: int, m: int)
    requires
        0 <= j <= m < s.len(),
        forall|k: int| j <= k < m ==> is_param_char(#[trigger] s[k]),
        !is_param_char(s[m]),
    ensures
        csi_end(s, j) == m,
    decreases m - j,
{
    if j < m {
        lemma_csi_end_run(s, j + 1, m);
    }
}

} // verus!
