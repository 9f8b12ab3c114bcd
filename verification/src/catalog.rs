//! Finding layouts by name: the picker list, the custom layout files, and name resolution.

use vstd::prelude::*;

use crate::layout::{builtin_layouts, builtin_views, LayoutConfig, LayoutView};
use crate::text::{
    chars_of, copy_chars, eq_ignore_ascii_case, push_range, str_eq_ignore_ascii_case, string_of, strings_view,
    trim, trim_chars,
};

verus! {

/// The names of the built-in layouts, in picker order.
pub open spec fn builtin_names() -> Seq<Seq<char>> {
    builtin_views().map_values(|l: LayoutView| l.name)
}

/// `x` equals one of `names` up to ASCII case.
pub open spec fn contains_ignore_case(names: Seq<Seq<char>>, x: Seq<char>) -> bool {
    exists|k: int| 0 <= k < names.len() && eq_ignore_ascii_case(#[trigger] names[k], x)
}

/// `names` followed by each of `custom` in turn that does not already appear, up to ASCII case.
pub open spec fn merge_names(names: Seq<Seq<char>>, custom: Seq<Seq<char>>) -> Seq<Seq<char>>
    decreases custom.len(),
{
    if custom.len() == 0 {
        names
    } else {
        let next = if contains_ignore_case(names, custom[0]) {
            names
        } else {
            names.push(custom[0])
        };
        merge_names(next, custom.drop_first())
    }
}

fn owned_copy(s: &String) -> (r: String)
    ensures
        r@ == s@,
{
    s.clone()
}

/// All layout names for the picker: the built-ins first, then each custom name (in the order
/// given) that no earlier name matches up to ASCII case.
pub fn list_layouts(custom: &Vec<String>) -> (r: Vec<String>)
    ensures
        strings_view(r@) == merge_names(builtin_names(), strings_view(custom@)),
{
    let builtins = builtin_layouts();
    let mut names: Vec<String> = Vec::new();
    let mut b: usize = 0;
    while b < builtins.len()
        invariant
            builtins.len() == 5,
            forall|k: int| 0 <= k < 5 ==> (#[trigger] builtins@[k])@ == builtin_views()[k],
            b <= 5,
            strings_view(names@) == builtin_names().take(b as int),
        decreases 5 - b,
    {
        let ghost before = strings_view(names@);
        names.push(owned_copy(&builtins[b].name));
        assert(strings_view(names@) =~= before.push(builtins@[b as int]@.name));
        assert(builtin_names().take(b + 1) =~= builtin_names().take(b as int).push(
            builtin_names()[b as int],
        ));
        b = b + 1;
    }
    assert(builtin_names().take(5) =~= builtin_names());
    let ghost cv = strings_view(custom@);
    assert(cv.skip(0) =~= cv);
    let mut j: usize = 0;
    while j < custom.len()
        invariant
            j <= custom.len(),
            cv == strings_view(custom@),
            merge_names(strings_view(names@), cv.skip(j as int)) == merge_names(
                builtin_names(),
                cv,
            ),
        decreases custom.len() - j,
    {
        let ghost nv = strings_view(names@);
        let mut found = false;
        let mut k: usize = 0;
        while k < names.len() && !found
            invariant
                k <= names.len(),
                nv == strings_view(names@),
                j < custom.len(),
                found ==> contains_ignore_case(nv, custom@[j as int]@),
                !found ==> forall|m: int| 0 <= m < k ==> !eq_ignore_ascii_case(
                    #[trigger] nv[m],
                    custom@[j as int]@,
                ),
            decreases names.len() - k,
        {
            if str_eq_ignore_ascii_case(names[k].as_str(), custom[j].as_str()) {
                found = true;
                assert(eq_ignore_ascii_case(nv[k as int], custom@[j as int]@));
            }
            k = k + 1;
        }
        assert(cv.skip(j as int)[0] == cv[j as int]);
        assert(cv.skip(j as int).drop_first() =~= cv.skip(j + 1));
        if !found {
            names.push(owned_copy(&custom[j]));
            assert(strings_view(names@) =~= nv.push(cv[j as int]));
        }
        j = j + 1;
    }
    assert(cv.skip(custom.len() as int) =~= Seq::<Seq<char>>::empty());
    names
}

/// The position of the last `.` in `name` before `j`, or `-1`.
pub open spec fn last_dot(name: Seq<char>, j: int) -> int
    decreases j,
{
    if j <= 0 {
        -1
    } else if name[j - 1] == '.' {
        j - 1
    } else {
        last_dot(name, j - 1)
    }
}

/// The layout name a directory entry called `file` provides: its stem when its extension (the
/// text after the last `.`, a leading dot not counting) is `json` or `jsonc`.
pub open spec fn layout_stem(file: Seq<char>) -> Option<Seq<char>> {
    let d = last_dot(file, file.len() as int);
    if d > 0 && (file.skip(d + 1) == "json"@ || file.skip(d + 1) == "jsonc"@) {
        Some(file.take(d))
    } else {
        None
    }
}

/// The layout names that a list of directory entries provides, in order.
pub open spec fn layout_stems(files: Seq<Seq<char>>) -> Seq<Seq<char>>
    decreases files.len(),
{
    if files.len() == 0 {
        Seq::empty()
    } else {
        let head = match layout_stem(files[0]) {
            Some(stem) => seq![stem],
            None => Seq::empty(),
        };
        head + layout_stems(files.drop_first())
    }
}

/// `a` comes no later than `b` in code-point lexicographic order (the order of `String`).
pub open spec fn lex_le(a: Seq<char>, b: Seq<char>) -> bool
    decreases a.len(),
{
    if a.len() == 0 {
        true
    } else if b.len() == 0 {
        false
    } else if (a[0] as u32) < (b[0] as u32) {
        true
    } else if (a[0] as u32) > (b[0] as u32) {
        false
    } else {
        lex_le(a.drop_first(), b.drop_first())
    }
}

/// `v` is in ascending lexicographic order.
pub open spec fn sorted_lex(v: Seq<Seq<char>>) -> bool {
    forall|i: int, j: int| 0 <= i < j < v.len() ==> lex_le(#[trigger] v[i], #[trigger] v[j])
}

pub proof fn lemma_lex_total(a: Seq<char>, b: Seq<char>)
    ensures
        lex_le(a, b) || lex_le(b, a),
    decreases a.len(),
{
    if a.len() > 0 && b.len() > 0 && (a[0] as u32) == (b[0] as u32) {
        lemma_lex_total(a.drop_first(), b.drop_first());
    }
}

pub proof fn lemma_lex_trans(a: Seq<char>, b: Seq<char>, c: Seq<char>)
    requires
        lex_le(a, b),
        lex_le(b, c),
    ensures
        lex_le(a, c),
    decreases a.len(),
{
    if a.len() > 0 && b.len() > 0 && c.len() > 0 && (a[0] as u32) == (b[0] as u32) && (b[0] as u32)
        == (c[0] as u32) {
        lemma_lex_trans(a.drop_first(), b.drop_first(), c.drop_first());
    }
}

/// Executable `lex_le`.
fn lex_le_chars(a: &[char], b: &[char]) -> (r: bool)
    ensures
        r == lex_le(a@, b@),
{
    let mut i: usize = 0;
    assert(a@.skip(0) =~= a@);
    assert(b@.skip(0) =~= b@);
    while i < a.len()
        invariant
            i <= a.len(),
            i <= b.len(),
            lex_le(a@, b@) == lex_le(a@.skip(i as int), b@.skip(i as int)),
        decreases a.len() - i,
    {
        if i >= b.len() {
            return false;
        }
        let x: u32 = a[i] as u32;
        let y: u32 = b[i] as u32;
        assert(a@.skip(i as int)[0] == a@[i as int]);
        assert(b@.skip(i as int)[0] == b@[i as int]);
        if x < y {
            return true;
        }
        if x > y {
            return false;
        }
        assert(a@.skip(i as int).drop_first() =~= a@.skip(i + 1));
        assert(b@.skip(i as int).drop_first() =~= b@.skip(i + 1));
        i = i + 1;
    }
    assert(a@.skip(i as int).len() == 0);
    true
}

/// The stem that a directory entry called `file` provides as a layout, if any.
fn file_layout_stem(file: &String) -> (r: Option<String>)
    ensures
        match r {
            Some(s) => layout_stem(file@) == Some(s@),
            None => layout_stem(file@).is_none(),
        },
{
    let cs = chars_of(file.as_str());
    let n = cs.len();
    let mut j: usize = n;
    while j > 0 && cs[j - 1] != '.'
        invariant
            j <= n,
            n == cs.len(),
            last_dot(cs@, n as int) == last_dot(cs@, j as int),
        decreases j,
    {
        j = j - 1;
    }
    if j <= 1 {
        return None;
    }
    let d = j - 1;
    let ghost ext = cs@.skip(d + 1);
    proof {
        reveal_strlit("json");
        reveal_strlit("jsonc");
    }
    let ext_len = n - j;
    let is_json = ext_len == 4 && cs[j] == 'j' && cs[j + 1] == 's' && cs[j + 2] == 'o' && cs[j
        + 3] == 'n';
    let is_jsonc = ext_len == 5 && cs[j] == 'j' && cs[j + 1] == 's' && cs[j + 2] == 'o' && cs[j
        + 3] == 'n' && cs[j + 4] == 'c';
    if is_json {
        assert(ext =~= "json"@);
    } else {
        assert(ext != "json"@) by {
            if ext =~= "json"@ {
                assert("json"@.len() == 4);
                assert(ext.len() == ext_len);
                assert(ext[0] == cs@[j as int]);
                assert(ext[1] == cs@[j + 1]);
                assert(ext[2] == cs@[j + 2]);
                assert(ext[3] == cs@[j + 3]);
            }
        }
    }
    if is_jsonc {
        assert(ext =~= "jsonc"@);
    } else {
        assert(ext != "jsonc"@) by {
            if ext =~= "jsonc"@ {
                assert(ext[0] == cs@[j as int]);
                assert(ext[1] == cs@[j + 1]);
                assert(ext[2] == cs@[j + 2]);
                assert(ext[3] == cs@[j + 3]);
                assert(ext[4] == cs@[j + 4]);
            }
        }
    }
    if is_json || is_jsonc {
        let mut pre: Vec<char> = Vec::new();
        push_range(&mut pre, cs.as_slice(), 0, d);
        assert(pre@ =~= cs@.take(d as int));
        Some(string_of(pre.as_slice()))
    } else {
        None
    }
}


proof fn lemma_layout_stems_push(files: Seq<Seq<char>>, f: Seq<char>)
    ensures
        layout_stems(files.push(f)) == layout_stems(files) + layout_stems(seq![f]),
    decreases files.len(),
{
    if files.len() == 0 {
        assert(files.push(f) =~= seq![f]);
        assert(layout_stems(files) =~= Seq::<Seq<char>>::empty());
        assert(Seq::<Seq<char>>::empty() + layout_stems(seq![f]) =~= layout_stems(seq![f]));
    } else {
        assert(files.push(f).drop_first() =~= files.drop_first().push(f));
        lemma_layout_stems_push(files.drop_first(), f);
        assert(files.push(f)[0] == files[0]);
        let head = match layout_stem(files[0]) {
            Some(stem) => seq![stem],
            None => Seq::<Seq<char>>::empty(),
        };
        assert(layout_stems(files.push(f)) =~= head + (layout_stems(files.drop_first())
            + layout_stems(seq![f])));
    }
}

/// Insert `x` into the sorted vector `out`, after every name that sorts no later than it.
fn insert_sorted(out: &mut Vec<String>, x: String)
    requires
        sorted_lex(strings_view(old(out)@)),
    ensures
        sorted_lex(strings_view(final(out)@)),
        strings_view(final(out)@).to_multiset() == strings_view(old(out)@).to_multiset().insert(
            x@,
        ),
{
    let ghost v = strings_view(out@);
    let xs = chars_of(x.as_str());
    let mut p: usize = 0;
    while p < out.len() && lex_le_chars(chars_of(out[p].as_str()).as_slice(), xs.as_slice())
        invariant
            p <= out.len(),
            v == strings_view(out@),
            xs@ == x@,
            forall|k: int| 0 <= k < p ==> lex_le(#[trigger] v[k], x@),
        decreases out.len() - p,
    {
        p = p + 1;
    }
    let ghost xv = x@;
    out.insert(p, x);
    proof {
        let nv = strings_view(out@);
        assert(nv =~= v.insert(p as int, xv));
        vstd::seq_lib::to_multiset_insert(v, p as int, xv);
        if p < v.len() {
            lemma_lex_total(v[p as int], xv);
        }
        assert forall|i: int, j: int| 0 <= i < j < nv.len() implies lex_le(
            #[trigger] nv[i],
            #[trigger] nv[j],
        ) by {
            if j < p {
                assert(nv[i] == v[i] && nv[j] == v[j]);
            } else if j == p {
                assert(nv[i] == v[i]);
            } else if i == p {
                assert(nv[j] == v[j - 1]);
                if j - 1 > p {
                    lemma_lex_trans(xv, v[p as int], v[j - 1]);
                }
            } else if i < p {
                assert(nv[i] == v[i] && nv[j] == v[j - 1]);
            } else {
                assert(nv[i] == v[i - 1] && nv[j] == v[j - 1]);
            }
        }
    }
}

/// The layout names that the entries of the layout directory provide: the stems of the
/// `.json` and `.jsonc` entries, sorted.
pub fn custom_layout_names(files: &Vec<String>) -> (r: Vec<String>)
    ensures
        sorted_lex(strings_view(r@)),
        strings_view(r@).to_multiset() == layout_stems(strings_view(files@)).to_multiset(),
{
    let ghost fv = strings_view(files@);
    let mut out: Vec<String> = Vec::new();
    let mut j: usize = 0;
    assert(fv.take(0) =~= Seq::<Seq<char>>::empty());
    assert(strings_view(out@) =~= Seq::<Seq<char>>::empty());
    assert(layout_stems(Seq::<Seq<char>>::empty()) =~= Seq::<Seq<char>>::empty());
    while j < files.len()
        invariant
            j <= files.len(),
            fv == strings_view(files@),
            sorted_lex(strings_view(out@)),
            strings_view(out@).to_multiset() == layout_stems(fv.take(j as int)).to_multiset(),
        decreases files.len() - j,
    {
        let ghost before = strings_view(out@);
        let stem = file_layout_stem(&files[j]);
        proof {
            assert(fv[j as int] == files@[j as int]@);
            assert(seq![fv[j as int]][0] == fv[j as int]);
            assert(layout_stems(Seq::<Seq<char>>::empty()) =~= Seq::<Seq<char>>::empty());
            assert(fv.take(j + 1) =~= fv.take(j as int).push(fv[j as int]));
            lemma_layout_stems_push(fv.take(j as int), fv[j as int]);
            assert(seq![fv[j as int]].drop_first() =~= Seq::<Seq<char>>::empty());
            vstd::seq_lib::lemma_multiset_commutative(
                layout_stems(fv.take(j as int)),
                layout_stems(seq![fv[j as int]]),
            );
        }
        match stem {
            Some(st) => {
                proof {
                    assert(layout_stems(seq![fv[j as int]]) =~= seq![st@]);
                    assert(seq![st@].to_multiset() =~= vstd::multiset::Multiset::empty().insert(st@)) by {
                        broadcast use vstd::seq_lib::group_to_multiset_ensures;

                        assert(Seq::<Seq<char>>::empty().push(st@) =~= seq![st@]);
                    }
                }
                insert_sorted(&mut out, st);
            },
            None => {
                proof {
                    assert(layout_stems(seq![fv[j as int]]) =~= Seq::<Seq<char>>::empty());
                    assert(Seq::<Seq<char>>::empty().to_multiset() =~= vstd::multiset::Multiset::empty()) by {
                        broadcast use vstd::seq_lib::group_to_multiset_ensures;

                    }
                }
            },
        }
        j = j + 1;
    }
    assert(fv.take(files.len() as int) =~= fv);
    out
}


/// The view of an optional layout.
pub open spec fn opt_view(o: Option<LayoutConfig>) -> Option<LayoutView> {
    match o {
        Some(l) => Some(l@),
        None => None,
    }
}

/// The first built-in layout, from position `k` of the picker order on, whose name matches
/// `want` up to ASCII case.
pub open spec fn builtin_from(want: Seq<char>, k: int) -> Option<LayoutView>
    decreases 5 - k,
{
    if k < 0 || k >= 5 {
        None
    } else if eq_ignore_ascii_case(builtin_views()[k].name, want) {
        Some(builtin_views()[k])
    } else {
        builtin_from(want, k + 1)
    }
}

/// The built-in layout called `want` (up to ASCII case), if any.
pub open spec fn builtin_named(want: Seq<char>) -> Option<LayoutView> {
    builtin_from(want, 0)
}

/// A layout read from a custom file under the name `want`: it keeps its own name unless that
/// is blank, in which case it takes `want`.
pub open spec fn adopted_layout(l: LayoutView, want: Seq<char>) -> LayoutView {
    if trim(l.name).len() == 0 {
        LayoutView { name: want, ..l }
    } else {
        l
    }
}

/// What `resolve_layout` finds for `name`, given the layout read from the custom files for the
/// trimmed name (if one was read): nothing for a blank name, else the built-in of that name,
/// else the custom layout.
pub open spec fn resolve_spec(name: Seq<char>, custom: Option<LayoutView>) -> Option<LayoutView> {
    let want = trim(name);
    if want.len() == 0 {
        None
    } else {
        match builtin_named(want) {
            Some(b) => Some(b),
            None => match custom {
                Some(l) => Some(adopted_layout(l, want)),
                None => None,
            },
        }
    }
}

/// The built-in layout called `want`, matched up to ASCII case, if any.
pub fn find_builtin(want: &str) -> (r: Option<LayoutConfig>)
    ensures
        opt_view(r) == builtin_named(want@),
{
    let builtins = builtin_layouts();
    let mut k: usize = 0;
    while k < builtins.len()
        invariant
            builtins.len() == 5,
            forall|m: int| 0 <= m < 5 ==> (#[trigger] builtins@[m])@ == builtin_views()[m],
            k <= 5,
            builtin_named(want@) == builtin_from(want@, k as int),
        decreases 5 - k,
    {
        if str_eq_ignore_ascii_case(builtins[k].name.as_str(), want) {
            return Some(builtins[k].clone());
        }
        k = k + 1;
    }
    None
}

/// The name to look a layout up by: `name` with surrounding white space removed, or nothing
/// when that leaves it empty.
pub fn layout_lookup_name(name: &str) -> (r: Option<String>)
    ensures
        match r {
            Some(s) => s@ == trim(name@) && s@.len() > 0,
            None => trim(name@).len() == 0,
        },
{
    let cs = chars_of(name);
    let t = trim_chars(cs.as_slice());
    if t.len() == 0 {
        None
    } else {
        Some(string_of(t.as_slice()))
    }
}

/// The name whose custom layout files must be read to resolve `name`: its trimmed form, when
/// that is not blank and names no built-in layout.
pub fn custom_lookup_name(name: &str) -> (r: Option<String>)
    ensures
        match r {
            Some(s) => s@ == trim(name@) && s@.len() > 0 && builtin_named(s@).is_none(),
            None => trim(name@).len() == 0 || builtin_named(trim(name@)).is_some(),
        },
{
    match layout_lookup_name(name) {
        Some(want) => {
            if find_builtin(want.as_str()).is_some() {
                None
            } else {
                Some(want)
            }
        },
        None => None,
    }
}

/// The custom files that may hold the layout called `want`, in the order they are tried:
/// `want.json`, then `want.jsonc`.
pub open spec fn layout_file_names(want: Seq<char>) -> Seq<Seq<char>> {
    seq![want + seq!['.', 'j', 's', 'o', 'n'], want + seq!['.', 'j', 's', 'o', 'n', 'c']]
}

/// The file names to try, in order, for the custom layout `want` (see `custom_lookup_name`):
/// the first that can be read and parses gives the layout.
pub fn custom_layout_files(want: &str) -> (r: Vec<String>)
    ensures
        strings_view(r@) == layout_file_names(want@),
{
    let mut json = chars_of(want);
    json.push('.');
    json.push('j');
    json.push('s');
    json.push('o');
    json.push('n');
    assert(json@ =~= want@ + seq!['.', 'j', 's', 'o', 'n']);
    let mut jsonc = copy_chars(&json);
    jsonc.push('c');
    assert(jsonc@ =~= want@ + seq!['.', 'j', 's', 'o', 'n', 'c']);
    let mut r: Vec<String> = Vec::new();
    r.push(string_of(json.as_slice()));
    r.push(string_of(jsonc.as_slice()));
    assert(strings_view(r@) =~= layout_file_names(want@));
    r
}

/// Resolve a layout by name: a built-in (matched up to ASCII case, surrounding white space
/// ignored), else `custom`, the layout parsed from the first readable custom file for the
/// trimmed name (see `custom_lookup_name`), else nothing.
pub fn resolve_layout(name: &str, custom: Option<LayoutConfig>) -> (r: Option<LayoutConfig>)
    ensures
        opt_view(r) == resolve_spec(name@, opt_view(custom)),
{
    let want = match layout_lookup_name(name) {
        Some(w) => w,
        None => {
            return None;
        },
    };
    match find_builtin(want.as_str()) {
        Some(b) => Some(b),
        None => match custom {
            Some(l) => {
                let lc = chars_of(l.name.as_str());
                let lt = trim_chars(lc.as_slice());
                if lt.len() == 0 {
                    let mut adopted = l;
                    adopted.name = want;
                    Some(adopted)
                } else {
                    Some(l)
                }
            },
            None => None,
        },
    }
}


/// No two of `names` match up to ASCII case.
pub open spec fn distinct_ignore_case(names: Seq<Seq<char>>) -> bool {
    forall|i: int, j: int|
        0 <= i < j < names.len() ==> !eq_ignore_ascii_case(#[trigger] names[i], #[trigger] names[j])
}

proof fn lemma_ci_symmetric(a: Seq<char>, b: Seq<char>)
    requires
        eq_ignore_ascii_case(a, b),
    ensures
        eq_ignore_ascii_case(b, a),
{
    assert forall|i: int| 0 <= i < b.len() implies #[trigger] crate::text::char_eq_ignore_ascii_case(
        b[i],
        a[i],
    ) by {
        assert(crate::text::char_eq_ignore_ascii_case(a[i], b[i]));
    }
}

proof fn lemma_ci_transitive(a: Seq<char>, b: Seq<char>, c: Seq<char>)
    requires
        eq_ignore_ascii_case(a, b),
        eq_ignore_ascii_case(b, c),
    ensures
        eq_ignore_ascii_case(a, c),
{
    assert forall|i: int| 0 <= i < a.len() implies #[trigger] crate::text::char_eq_ignore_ascii_case(
        a[i],
        c[i],
    ) by {
        assert(crate::text::char_eq_ignore_ascii_case(a[i], b[i]));
        assert(crate::text::char_eq_ignore_ascii_case(b[i], c[i]));
    }
}

/// The built-in names are pairwise different, even ignoring ASCII case.
pub proof fn lemma_builtin_names_distinct()
    ensures
        distinct_ignore_case(builtin_names()),
        builtin_names().len() == 5,
{
    reveal_strlit("default");
    reveal_strlit("balanced");
    reveal_strlit("polished");
    reveal_strlit("dense");
    reveal_strlit("spacious");
    let n = builtin_names();
    assert(n.len() == 5);
    assert(n[0] == "default"@);
    assert(n[1] == "balanced"@);
    assert(n[2] == "polished"@);
    assert(n[3] == "dense"@);
    assert(n[4] == "spacious"@);
    assert forall|i: int, j: int| 0 <= i < j < n.len() implies !eq_ignore_ascii_case(
        #[trigger] n[i],
        #[trigger] n[j],
    ) by {
        if n[i].len() == n[j].len() {
            assert(!crate::text::char_eq_ignore_ascii_case(n[i][0], n[j][0]));
        }
    }
}

proof fn lemma_builtin_from_hit(want: Seq<char>, k: int, m: int)
    requires
        0 <= k <= m < 5,
        eq_ignore_ascii_case(builtin_views()[m].name, want),
    ensures
        builtin_from(want, k) == Some(builtin_views()[m]),
    decreases m - k,
{
    lemma_builtin_names_distinct();
    let n = builtin_names();
    assert(n[k] == builtin_views()[k].name);
    assert(n[m] == builtin_views()[m].name);
    if k < m {
        if eq_ignore_ascii_case(builtin_views()[k].name, want) {
            lemma_ci_symmetric(builtin_views()[m].name, want);
            lemma_ci_transitive(builtin_views()[k].name, want, builtin_views()[m].name);
            assert(!eq_ignore_ascii_case(n[k], n[m]));
        }
        lemma_builtin_from_hit(want, k + 1, m);
    }
}

/// Resolution law: a name whose trimmed form matches a built-in name up to ASCII case resolves
/// to that built-in, whatever the custom files hold; a blank name resolves to nothing.
pub proof fn lemma_resolve_builtin(name: Seq<char>, custom: Option<LayoutView>, k: int)
    requires
        0 <= k < 5,
        eq_ignore_ascii_case(trim(name), builtin_views()[k].name),
    ensures
        resolve_spec(name, custom) == Some(builtin_views()[k]),
{
    lemma_ci_symmetric(trim(name), builtin_views()[k].name);
    lemma_builtin_from_hit(trim(name), 0, k);
    reveal_strlit("default");
    reveal_strlit("balanced");
    reveal_strlit("polished");
    reveal_strlit("dense");
    reveal_strlit("spacious");
    assert(builtin_views()[k].name.len() > 0);
}

/// A blank name resolves to nothing.
pub proof fn lemma_resolve_blank(name: Seq<char>, custom: Option<LayoutView>)
    requires
        trim(name).len() == 0,
    ensures
        resolve_spec(name, custom).is_none(),
{
}

proof fn lemma_merge_names(names: Seq<Seq<char>>, custom: Seq<Seq<char>>)
    ensures
        merge_names(names, custom).len() >= names.len(),
        merge_names(names, custom).take(names.len() as int) == names,
        distinct_ignore_case(names) ==> distinct_ignore_case(merge_names(names, custom)),
        forall|j: int|
            0 <= j < custom.len() ==> contains_ignore_case(
                merge_names(names, custom),
                #[trigger] custom[j],
            ),
        forall|k: int|
            0 <= k < names.len() ==> contains_ignore_case(merge_names(names, custom), #[trigger] names[k]),
    decreases custom.len(),
{
    let r = merge_names(names, custom);
    if custom.len() == 0 {
        assert(names.take(names.len() as int) =~= names);
        assert forall|k: int| 0 <= k < names.len() implies contains_ignore_case(
            r,
            #[trigger] names[k],
        ) by {
            assert(eq_ignore_ascii_case(r[k], names[k]));
        }
    } else {
        let x = custom[0];
        let present = contains_ignore_case(names, x);
        let next = if present {
            names
        } else {
            names.push(x)
        };
        lemma_merge_names(next, custom.drop_first());
        assert(r == merge_names(next, custom.drop_first()));
        assert(next.take(names.len() as int) =~= names);
        assert(r.take(names.len() as int) =~= r.take(next.len() as int).take(names.len() as int));
        if distinct_ignore_case(names) && !present {
            assert forall|i: int, j: int| 0 <= i < j < next.len() implies !eq_ignore_ascii_case(
                #[trigger] next[i],
                #[trigger] next[j],
            ) by {
                if j == names.len() {
                    assert(next[j] == x);
                    if eq_ignore_ascii_case(next[i], x) {
                        assert(contains_ignore_case(names, x));
                    }
                }
            }
        }
        assert forall|k: int| 0 <= k < names.len() implies contains_ignore_case(
            r,
            #[trigger] names[k],
        ) by {
            assert(next[k] == names[k]);
        }
        assert forall|j: int| 0 <= j < custom.len() implies contains_ignore_case(
            r,
            #[trigger] custom[j],
        ) by {
            if j == 0 {
                if present {
                    let k = choose|k: int| 0 <= k < names.len() && eq_ignore_ascii_case(
                        #[trigger] names[k],
                        x,
                    );
                    let m = choose|m: int| 0 <= m < r.len() && eq_ignore_ascii_case(
                        #[trigger] r[m],
                        names[k],
                    );
                    assert(contains_ignore_case(r, names[k]));
                    lemma_ci_transitive(r[m], names[k], x);
                } else {
                    assert(next[names.len() as int] == x);
                    assert(contains_ignore_case(r, next[names.len() as int]));
                }
            } else {
                assert(custom[j] == custom.drop_first()[j - 1]);
            }
        }
    }
}

/// Picker law: the list starts with the built-in names in picker order, no two entries match up
/// to ASCII case, and every custom name is represented (by itself or by an entry that matches it
/// up to ASCII case).
pub proof fn lemma_list_layouts(custom: Seq<Seq<char>>)
    ensures
        merge_names(builtin_names(), custom).take(5) == builtin_names(),
        distinct_ignore_case(merge_names(builtin_names(), custom)),
        forall|j: int|
            0 <= j < custom.len() ==> contains_ignore_case(
                merge_names(builtin_names(), custom),
                #[trigger] custom[j],
            ),
{
    lemma_builtin_names_distinct();
    lemma_merge_names(builtin_names(), custom);
}

} // verus!
