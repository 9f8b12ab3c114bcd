//! Removing `//` and `/* */` comments so `.jsonc` layout files parse as JSON.

use vstd::prelude::*;

use crate::text::{chars_of, string_of};

verus! {

/// The first position at or after `j` holding a newline, or `s.len()`.
pub open spec fn next_newline(s: Seq<char>, j: int) -> int
    decreases s.len() - j,
{
    if j < 0 || j >= s.len() {
        s.len() as int
    } else if s[j] == '\n' {
        j
    } else {
        next_newline(s, j + 1)
    }
}

/// The position of the `/` that closes a block comment whose body is scanned from `j`
/// (`prev_star`: the character before `j` was a `*` of the body), or `s.len()`.
pub open spec fn block_close(s: Seq<char>, j: int, prev_star: bool) -> int
    decreases s.len() - j,
{
    if j < 0 || j >= s.len() {
        s.len() as int
    } else if prev_star && s[j] == '/' {
        j
    } else {
        block_close(s, j + 1, s[j] == '*')
    }
}

pub proof fn lemma_next_newline(s: Seq<char>, j: int)
    requires
        0 <= j,
    ensures
        j <= next_newline(s, j) || next_newline(s, j) == s.len(),
        next_newline(s, j) <= s.len(),
    decreases s.len() - j,
{
    if j < s.len() && s[j] != '\n' {
        lemma_next_newline(s, j + 1);
    }
}

pub proof fn lemma_block_close(s: Seq<char>, j: int, prev_star: bool)
    requires
        0 <= j,
    ensures
        j <= block_close(s, j, prev_star) || block_close(s, j, prev_star) == s.len(),
        block_close(s, j, prev_star) <= s.len(),
    decreases s.len() - j,
{
    if j < s.len() && !(prev_star && s[j] == '/') {
        lemma_block_close(s, j + 1, s[j] == '*');
    }
}

/// `s` from position `i` on with its comments removed, starting inside a string literal when
/// `in_str` (just after a backslash when `esc`). String literals are copied as they are; a line
/// comment is replaced by the newline that ends it; a block comment is dropped whole; an
/// unterminated comment runs to the end of the text.
pub open spec fn jsonc_from(s: Seq<char>, i: int, in_str: bool, esc: bool) -> Seq<char>
    decreases s.len() - i,
    via jsonc_from_decreases
{
    if i < 0 || i >= s.len() {
        Seq::empty()
    } else if in_str {
        let c = s[i];
        if esc {
            seq![c] + jsonc_from(s, i + 1, true, false)
        } else if c == '\\' {
            seq![c] + jsonc_from(s, i + 1, true, true)
        } else if c == '"' {
            seq![c] + jsonc_from(s, i + 1, false, false)
        } else {
            seq![c] + jsonc_from(s, i + 1, true, false)
        }
    } else if s[i] == '"' {
        seq![s[i]] + jsonc_from(s, i + 1, true, false)
    } else if s[i] == '/' && i + 1 < s.len() && s[i + 1] == '/' {
        let nl = next_newline(s, i + 1);
        if nl < s.len() {
            seq!['\n'] + jsonc_from(s, nl + 1, false, false)
        } else {
            Seq::empty()
        }
    } else if s[i] == '/' && i + 1 < s.len() && s[i + 1] == '*' {
        let close = block_close(s, i + 2, false);
        if close < s.len() {
            jsonc_from(s, close + 1, false, false)
        } else {
            Seq::empty()
        }
    } else {
        seq![s[i]] + jsonc_from(s, i + 1, false, false)
    }
}

#[via_fn]
proof fn jsonc_from_decreases(s: Seq<char>, i: int, in_str: bool, esc: bool) {
    if 0 <= i {
        lemma_next_newline(s, i + 1);
        lemma_block_close(s, i + 2, false);
    }
}

/// `s` with its `//` and `/* */` comments removed.
pub open spec fn strip_jsonc_spec(s: Seq<char>) -> Seq<char> {
    jsonc_from(s, 0, false, false)
}

/// Strip `//` and `/* */` comments so `.jsonc` files parse as JSON. Text inside string
/// literals, escapes included, is kept as it is.
pub fn strip_jsonc(raw: &str) -> (r: String)
    ensures
        r@ == strip_jsonc_spec(raw@),
{
    let cs = chars_of(raw);
    let n = cs.len();
    let mut out: Vec<char> = Vec::new();
    let mut in_str = false;
    let mut esc = false;
    let mut i: usize = 0;
    while i < n
        invariant
            n == cs.len(),
            i <= n,
            !in_str ==> !esc,
            out@ + jsonc_from(cs@, i as int, in_str, esc) == strip_jsonc_spec(cs@),
        decreases n - i,
    {
        let c = cs[i];
        let ghost before = out@;
        let ghost rest = jsonc_from(cs@, i as int, in_str, esc);
        if in_str {
            out.push(c);
            if esc {
                esc = false;
            } else if c == '\\' {
                esc = true;
            } else if c == '"' {
                in_str = false;
            }
            assert(rest == seq![c] + jsonc_from(cs@, i + 1, in_str, esc));
            assert(before + rest =~= out@ + jsonc_from(cs@, i + 1, in_str, esc));
            i = i + 1;
        } else if c == '"' {
            in_str = true;
            out.push(c);
            assert(before + rest =~= out@ + jsonc_from(cs@, i + 1, in_str, esc));
            i = i + 1;
        } else if c == '/' && i + 1 < n && cs[i + 1] == '/' {
            let mut j: usize = i + 1;
            while j < n && cs[j] != '\n'
                invariant
                    i + 1 <= j <= n,
                    n == cs.len(),
                    next_newline(cs@, j as int) == next_newline(cs@, i + 1),
                decreases n - j,
            {
                j = j + 1;
            }
            if j < n {
                out.push('\n');
                assert(before + rest =~= out@ + jsonc_from(cs@, j + 1, false, false));
                i = j + 1;
            } else {
                assert(rest =~= Seq::<char>::empty());
                assert(before + rest =~= out@ + jsonc_from(cs@, n as int, false, false));
                i = n;
            }
        } else if c == '/' && i + 1 < n && cs[i + 1] == '*' {
            let mut j: usize = i + 2;
            let mut prev_star = false;
            while j < n && !(prev_star && cs[j] == '/')
                invariant
                    i + 2 <= j <= n,
                    n == cs.len(),
                    block_close(cs@, j as int, prev_star) == block_close(cs@, i + 2, false),
                decreases n - j,
            {
                prev_star = cs[j] == '*';
                j = j + 1;
            }
            if j < n {
                assert(before + rest =~= out@ + jsonc_from(cs@, j + 1, false, false));
                i = j + 1;
            } else {
                assert(rest =~= Seq::<char>::empty());
                assert(before + rest =~= out@ + jsonc_from(cs@, n as int, false, false));
                i = n;
            }
        } else {
            out.push(c);
            assert(before + rest =~= out@ + jsonc_from(cs@, i + 1, in_str, esc));
            i = i + 1;
        }
    }
    assert(out@ + jsonc_from(cs@, n as int, in_str, esc) =~= out@);
    string_of(out.as_slice())
}

/// Whether `t`, read from a state inside a string literal (`in_str`, just after a backslash when
/// `esc`) or outside one, opens no comment: no `//` and no `/*` stands outside its string literals.
pub open spec fn comment_free(t: Seq<char>, in_str: bool, esc: bool) -> bool
    decreases t.len(),
{
    if t.len() == 0 {
        true
    } else if in_str {
        let c = t[0];
        if esc {
            comment_free(t.drop_first(), true, false)
        } else if c == '\\' {
            comment_free(t.drop_first(), true, true)
        } else if c == '"' {
            comment_free(t.drop_first(), false, false)
        } else {
            comment_free(t.drop_first(), true, false)
        }
    } else if t[0] == '"' {
        comment_free(t.drop_first(), true, false)
    } else if t[0] == '/' && t.len() > 1 && (t[1] == '/' || t[1] == '*') {
        false
    } else {
        comment_free(t.drop_first(), false, false)
    }
}

proof fn lemma_jsonc_comment_free_from(s: Seq<char>, i: int, in_str: bool, esc: bool)
    requires
        0 <= i <= s.len(),
        comment_free(s.skip(i), in_str, esc),
    ensures
        jsonc_from(s, i, in_str, esc) == s.skip(i),
    decreases s.len() - i,
{
    if i < s.len() {
        let c = s[i];
        let t = s.skip(i);
        assert(t[0] == c);
        assert(t.drop_first() =~= s.skip(i + 1));
        if i + 1 < s.len() {
            assert(t[1] == s[i + 1]);
        }
        let st = if in_str {
            if esc {
                true
            } else {
                c != '"'
            }
        } else {
            c == '"'
        };
        let e = in_str && !esc && c == '\\';
        lemma_jsonc_comment_free_from(s, i + 1, st, e);
        assert(s.skip(i) =~= seq![c] + s.skip(i + 1));
    } else {
        assert(s.skip(i) =~= Seq::<char>::empty());
    }
}

/// Text that opens no comment outside its string literals (any comment-free JSON, `/` inside
/// strings included) passes through stripping unchanged.
pub proof fn lemma_strip_jsonc_comment_free(s: Seq<char>)
    requires
        comment_free(s, false, false),
    ensures
        strip_jsonc_spec(s) == s,
{
    assert(s.skip(0) =~= s);
    lemma_jsonc_comment_free_from(s, 0, false, false);
}

proof fn lemma_jsonc_output_comment_free(s: Seq<char>, i: int, in_str: bool, esc: bool)
    requires
        0 <= i <= s.len(),
        !in_str ==> !esc,
    ensures
        comment_free(jsonc_from(s, i, in_str, esc), in_str, esc),
    decreases s.len() - i,
{
    if i < s.len() {
        let c = s[i];
        lemma_next_newline(s, i + 1);
        lemma_block_close(s, i + 2, false);
        let out = jsonc_from(s, i, in_str, esc);
        if in_str {
            let st = if esc {
                true
            } else {
                c != '"'
            };
            let e = !esc && c == '\\';
            lemma_jsonc_output_comment_free(s, i + 1, st, e);
            assert(out.drop_first() =~= jsonc_from(s, i + 1, st, e));
        } else if c == '"' {
            lemma_jsonc_output_comment_free(s, i + 1, true, false);
            assert(out.drop_first() =~= jsonc_from(s, i + 1, true, false));
        } else if c == '/' && i + 1 < s.len() && s[i + 1] == '/' {
            let nl = next_newline(s, i + 1);
            if nl < s.len() {
                lemma_jsonc_output_comment_free(s, nl + 1, false, false);
                assert(out.drop_first() =~= jsonc_from(s, nl + 1, false, false));
            }
        } else if c == '/' && i + 1 < s.len() && s[i + 1] == '*' {
            let close = block_close(s, i + 2, false);
            if close < s.len() {
                lemma_jsonc_output_comment_free(s, close + 1, false, false);
            }
        } else {
            let rest = jsonc_from(s, i + 1, false, false);
            lemma_jsonc_output_comment_free(s, i + 1, false, false);
            assert(out.drop_first() =~= rest);
            if c == '/' && rest.len() > 0 {
                assert(i + 1 < s.len());
                assert(rest[0] == s[i + 1]);
            }
        }
    }
}

/// Stripping is idempotent: what it returns opens no comment, so stripping it again changes
/// nothing.
pub proof fn lemma_strip_jsonc_idempotent(s: Seq<char>)
    ensures
        comment_free(strip_jsonc_spec(s), false, false),
        strip_jsonc_spec(strip_jsonc_spec(s)) == strip_jsonc_spec(s),
{
    lemma_jsonc_output_comment_free(s, 0, false, false);
    lemma_strip_jsonc_comment_free(strip_jsonc_spec(s));
}

proof fn lemma_jsonc_len(s: Seq<char>, i: int, in_str: bool, esc: bool)
    requires
        0 <= i <= s.len(),
    ensures
        jsonc_from(s, i, in_str, esc).len() <= s.len() - i,
    decreases s.len() - i,
{
    if i < s.len() {
        let c = s[i];
        lemma_next_newline(s, i + 1);
        lemma_block_close(s, i + 2, false);
        if in_str {
            let st = if esc {
                true
            } else {
                c != '"'
            };
            lemma_jsonc_len(s, i + 1, st, !esc && c == '\\');
        } else if c == '"' {
            lemma_jsonc_len(s, i + 1, true, false);
        } else if c == '/' && i + 1 < s.len() && s[i + 1] == '/' {
            let nl = next_newline(s, i + 1);
            if nl < s.len() {
                lemma_jsonc_len(s, nl + 1, false, false);
            }
        } else if c == '/' && i + 1 < s.len() && s[i + 1] == '*' {
            let close = block_close(s, i + 2, false);
            if close < s.len() {
                lemma_jsonc_len(s, close + 1, false, false);
            }
        } else {
            lemma_jsonc_len(s, i + 1, false, false);
        }
    }
}

/// Stripping comments never lengthens the text.
pub proof fn lemma_strip_jsonc_shorter(s: Seq<char>)
    ensures
        strip_jsonc_spec(s).len() <= s.len(),
{
    lemma_jsonc_len(s, 0, false, false);
}


/// Whether `a` is a subsequence of `b`: `b` with some characters taken out, the rest kept in
/// order (matched greedily from the front).
pub open spec fn is_subseq(a: Seq<char>, b: Seq<char>) -> bool
    decreases b.len(),
{
    if a.len() == 0 {
        true
    } else if b.len() == 0 {
        false
    } else if a[0] == b[0] {
        is_subseq(a.drop_first(), b.drop_first())
    } else {
        is_subseq(a, b.drop_first())
    }
}

proof fn lemma_subseq_cons(a: Seq<char>, x: char, b: Seq<char>)
    requires
        is_subseq(a, b),
    ensures
        is_subseq(a, seq![x] + b),
    decreases b.len() + 1, 0int,
{
    let xb = seq![x] + b;
    assert(xb.drop_first() =~= b);
    if a.len() > 0 && a[0] == x {
        lemma_subseq_drop_first(a, b);
    }
}

proof fn lemma_subseq_drop_first(a: Seq<char>, b: Seq<char>)
    requires
        is_subseq(a, b),
        a.len() > 0,
    ensures
        is_subseq(a.drop_first(), b),
    decreases b.len(), 1int,
{
    let b1 = b.drop_first();
    assert(seq![b[0]] + b1 =~= b);
    if a[0] == b[0] {
        lemma_subseq_cons(a.drop_first(), b[0], b1);
    } else {
        lemma_subseq_drop_first(a, b1);
        lemma_subseq_cons(a.drop_first(), b[0], b1);
    }
}

proof fn lemma_subseq_prefix(a: Seq<char>, p: Seq<char>, b: Seq<char>)
    requires
        is_subseq(a, b),
    ensures
        is_subseq(a, p + b),
    decreases p.len(),
{
    if p.len() > 0 {
        lemma_subseq_prefix(a, p.drop_first(), b);
        lemma_subseq_cons(a, p[0], p.drop_first() + b);
        assert(seq![p[0]] + (p.drop_first() + b) =~= p + b);
    }
}

proof fn lemma_subseq_keep(x: char, a: Seq<char>, b: Seq<char>)
    requires
        is_subseq(a, b),
    ensures
        is_subseq(seq![x] + a, seq![x] + b),
{
    assert((seq![x] + a).drop_first() =~= a);
    assert((seq![x] + b).drop_first() =~= b);
}

proof fn lemma_next_newline_at(s: Seq<char>, j: int)
    requires
        0 <= j,
    ensures
        next_newline(s, j) < s.len() ==> s[next_newline(s, j)] == '\n',
    decreases s.len() - j,
{
    if j < s.len() && s[j] != '\n' {
        lemma_next_newline_at(s, j + 1);
    }
}

proof fn lemma_jsonc_subseq(s: Seq<char>, i: int, in_str: bool, esc: bool)
    requires
        0 <= i <= s.len(),
    ensures
        is_subseq(jsonc_from(s, i, in_str, esc), s.skip(i)),
    decreases s.len() - i,
{
    if i < s.len() {
        let c = s[i];
        lemma_next_newline(s, i + 1);
        lemma_block_close(s, i + 2, false);
        assert(s.skip(i) =~= seq![c] + s.skip(i + 1));
        if in_str {
            let st = if esc {
                true
            } else {
                c != '"'
            };
            let e = !esc && c == '\\';
            lemma_jsonc_subseq(s, i + 1, st, e);
            lemma_subseq_keep(c, jsonc_from(s, i + 1, st, e), s.skip(i + 1));
        } else if c == '"' {
            lemma_jsonc_subseq(s, i + 1, true, false);
            lemma_subseq_keep(c, jsonc_from(s, i + 1, true, false), s.skip(i + 1));
        } else if c == '/' && i + 1 < s.len() && s[i + 1] == '/' {
            let nl = next_newline(s, i + 1);
            if nl < s.len() {
                lemma_next_newline_at(s, i + 1);
                let rest = jsonc_from(s, nl + 1, false, false);
                lemma_jsonc_subseq(s, nl + 1, false, false);
                lemma_subseq_keep('\n', rest, s.skip(nl + 1));
                assert(s.skip(nl) =~= seq!['\n'] + s.skip(nl + 1));
                lemma_subseq_prefix(seq!['\n'] + rest, s.subrange(i, nl), s.skip(nl));
                assert(s.subrange(i, nl) + s.skip(nl) =~= s.skip(i));
            }
        } else if c == '/' && i + 1 < s.len() && s[i + 1] == '*' {
            let close = block_close(s, i + 2, false);
            if close < s.len() {
                lemma_jsonc_subseq(s, close + 1, false, false);
                lemma_subseq_prefix(
                    jsonc_from(s, close + 1, false, false),
                    s.subrange(i, close + 1),
                    s.skip(close + 1),
                );
                assert(s.subrange(i, close + 1) + s.skip(close + 1) =~= s.skip(i));
            }
        } else {
            lemma_jsonc_subseq(s, i + 1, false, false);
            lemma_subseq_keep(c, jsonc_from(s, i + 1, false, false), s.skip(i + 1));
        }
    }
}

/// Stripping only takes characters out: what it returns is a subsequence of the text, nothing
/// added and nothing reordered.
pub proof fn lemma_strip_jsonc_subseq(s: Seq<char>)
    ensures
        is_subseq(strip_jsonc_spec(s), s),
{
    lemma_jsonc_subseq(s, 0, false, false);
    assert(s.skip(0) =~= s);
}


/// A `*/` pair ends at position `k`: `s[k]` is a `/` right after a `*`.
pub open spec fn closes_at(s: Seq<char>, k: int) -> bool {
    1 <= k < s.len() && s[k - 1] == '*' && s[k] == '/'
}

proof fn lemma_block_close_first(s: Seq<char>, lo: int, j: int, k: int)
    requires
        0 <= lo <= j <= k,
        k >= lo + 1,
        closes_at(s, k),
        forall|m: int| lo + 1 <= m < k ==> !closes_at(s, m),
    ensures
        block_close(s, j, j > lo && s[j - 1] == '*') == k,
    decreases k - j,
{
    if j < k {
        if j > lo && s[j - 1] == '*' && s[j] == '/' {
            assert(closes_at(s, j));
        }
        lemma_block_close_first(s, lo, j + 1, k);
    }
}

proof fn lemma_block_close_none(s: Seq<char>, lo: int, j: int)
    requires
        0 <= lo <= j,
        forall|m: int| lo + 1 <= m < s.len() ==> !closes_at(s, m),
    ensures
        block_close(s, j, j > lo && j - 1 < s.len() && s[j - 1] == '*') == s.len(),
    decreases s.len() - j,
{
    if j < s.len() {
        if j > lo && s[j - 1] == '*' && s[j] == '/' {
            assert(closes_at(s, j));
        }
        lemma_block_close_none(s, lo, j + 1);
    }
}

/// A block comment opened by `/*` at `i` (outside a string literal) runs to the first `*/`
/// after the opener — the `*` of the opener does not count — and is dropped whole: stripping
/// resumes right after that `*/`. With no such `*/`, the rest of the text is dropped.
pub proof fn lemma_block_comment_dropped(s: Seq<char>, i: int)
    requires
        0 <= i,
        i + 1 < s.len(),
        s[i] == '/',
        s[i + 1] == '*',
    ensures
        forall|k: int|
            i + 3 <= k && #[trigger] closes_at(s, k) && (forall|m: int|
                i + 3 <= m < k ==> !closes_at(s, m)) ==> jsonc_from(s, i, false, false)
                == jsonc_from(s, k + 1, false, false),
        (forall|m: int| i + 3 <= m < s.len() ==> !closes_at(s, m)) ==> jsonc_from(
            s,
            i,
            false,
            false,
        ) == Seq::<char>::empty(),
{
    assert forall|k: int|
        i + 3 <= k && #[trigger] closes_at(s, k) && (forall|m: int|
            i + 3 <= m < k ==> !closes_at(s, m)) implies jsonc_from(s, i, false, false)
        == jsonc_from(s, k + 1, false, false) by {
        lemma_block_close_first(s, i + 2, i + 2, k);
    }
    if forall|m: int| i + 3 <= m < s.len() ==> !closes_at(s, m) {
        lemma_block_close_none(s, i + 2, i + 2);
    }
}


proof fn lemma_next_newline_first(s: Seq<char>, j: int, k: int)
    requires
        0 <= j <= k <= s.len(),
        k < s.len() ==> s[k] == '\n',
        forall|m: int| j <= m < k ==> s[m] != '\n',
    ensures
        next_newline(s, j) == k,
    decreases k - j,
{
    if j < k {
        lemma_next_newline_first(s, j + 1, k);
    }
}

/// A line comment opened by `//` at `i` (outside a string literal) runs to the end of its line:
/// it is replaced by the newline that ends it, and stripping resumes after that newline. With no
/// newline after it, the rest of the text is dropped.
pub proof fn lemma_line_comment_dropped(s: Seq<char>, i: int)
    requires
        0 <= i,
        i + 1 < s.len(),
        s[i] == '/',
        s[i + 1] == '/',
    ensures
        forall|k: int|
            i + 2 <= k < s.len() && #[trigger] s[k] == '\n' && (forall|m: int|
                i + 2 <= m < k ==> s[m] != '\n') ==> jsonc_from(s, i, false, false) == seq!['\n']
                + jsonc_from(s, k + 1, false, false),
        (forall|m: int| i + 2 <= m < s.len() ==> s[m] != '\n') ==> jsonc_from(
            s,
            i,
            false,
            false,
        ) == Seq::<char>::empty(),
{
    assert forall|k: int|
        i + 2 <= k < s.len() && #[trigger] s[k] == '\n' && (forall|m: int|
            i + 2 <= m < k ==> s[m] != '\n') implies jsonc_from(s, i, false, false) == seq!['\n']
        + jsonc_from(s, k + 1, false, false) by {
        lemma_next_newline_first(s, i + 1, k);
    }
    if forall|m: int| i + 2 <= m < s.len() ==> s[m] != '\n' {
        lemma_next_newline_first(s, i + 1, s.len() as int);
    }
}

} // verus!
