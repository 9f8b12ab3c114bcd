//! Display-boundary polish for status and digest strings.

use vstd::prelude::*;

use crate::text::{chars_of, push_range, string_of};

verus! {

/// Whether `char::is_lowercase` holds of `c`.
pub uninterp spec fn unicode_is_lowercase(c: char) -> bool;

/// What `char::to_uppercase` yields for `c`.
pub uninterp spec fn unicode_uppercase(c: char) -> Seq<char>;

/// Calls `char::is_lowercase`, which tells whether `c` has the Unicode `Lowercase` property.
/// Claimed: the result depends on `c` alone and is named `unicode_is_lowercase`.
#[verifier::external_body]
fn char_is_lowercase(c: char) -> (r: bool)
    ensures
        r == unicode_is_lowercase(c),
{
    c.is_lowercase()
}

/// Calls `char::to_uppercase`, which yields the Unicode upper-case mapping of `c` (one or more
/// characters), and collects it into a string. Claimed: the characters depend on `c` alone and
/// are named `unicode_uppercase`.
#[verifier::external_body]
fn char_to_uppercase(c: char) -> (r: String)
    ensures
        r@ == unicode_uppercase(c),
{
    c.to_uppercase().collect()
}

/// `s` with its first character replaced by `upper` when `first_is_lower` says that it is a
/// lower-case letter; `s` itself otherwise (and always when `s` is empty).
pub open spec fn capitalize_with_spec(s: Seq<char>, first_is_lower: bool, upper: Seq<char>) -> Seq<
    char,
> {
    if s.len() > 0 && first_is_lower {
        upper + s.drop_first()
    } else {
        s
    }
}

/// What `capitalize_first` makes of `s`: its first character upper-cased when it is a
/// lower-case letter, and `s` itself otherwise.
pub open spec fn capitalize_spec(s: Seq<char>) -> Seq<char> {
    if s.len() > 0 {
        capitalize_with_spec(s, unicode_is_lowercase(s[0]), unicode_uppercase(s[0]))
    } else {
        s
    }
}

/// Upper-case the first character of a status/digest string (`read 310 lines` → `Read 310
/// lines`). A no-op when the first character is not a lower-case letter (digits, punctuation,
/// an already-capital letter, or a character without case), so it is safe on any digest.
pub fn capitalize_first(s: &str) -> (r: String)
    ensures
        r@ == capitalize_spec(s@),
{
    let cs = chars_of(s);
    if cs.len() == 0 {
        return string_of(cs.as_slice());
    }
    let lower = char_is_lowercase(cs[0]);
    let up = char_to_uppercase(cs[0]);
    capitalize_first_with(s, lower, up.as_str())
}

/// The rewriting step of `capitalize_first`, given what the Unicode tables say of the first
/// character: whether it is lower-case (`first_is_lower`) and its upper-case form (`upper`).
pub fn capitalize_first_with(s: &str, first_is_lower: bool, upper: &str) -> (r: String)
    ensures
        r@ == capitalize_with_spec(s@, first_is_lower, upper@),
{
    let cs = chars_of(s);
    if cs.len() > 0 && first_is_lower {
        let mut out = chars_of(upper);
        push_range(&mut out, cs.as_slice(), 1, cs.len());
        assert(cs@.subrange(1, cs.len() as int) =~= cs@.drop_first());
        string_of(out.as_slice())
    } else {
        string_of(cs.as_slice())
    }
}

/// Capitalising touches only the first character: the rest of the string is kept as it is, and
/// a string that does not open with a lower-case letter comes back unchanged.
pub proof fn lemma_capitalize_keeps_rest(s: Seq<char>)
    ensures
        s.len() > 0 && unicode_is_lowercase(s[0]) ==> capitalize_spec(s).subrange(
            unicode_uppercase(s[0]).len() as int,
            capitalize_spec(s).len() as int,
        ) == s.drop_first(),
        !(s.len() > 0 && unicode_is_lowercase(s[0])) ==> capitalize_spec(s) == s,
{
    if s.len() > 0 && unicode_is_lowercase(s[0]) {
        let u = unicode_uppercase(s[0]);
        assert((u + s.drop_first()).subrange(u.len() as int, (u + s.drop_first()).len() as int)
            =~= s.drop_first());
    }
}

} // verus!
