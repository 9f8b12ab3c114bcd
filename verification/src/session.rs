//! The live layout: either a fixed layout, or `auto`, which follows the terminal width.
//!
//! The caller owns the state and performs the outside work (reading layout files, querying the
//! terminal size, persisting the choice); these functions decide what that work feeds into.

use vstd::prelude::*;

use crate::catalog::{opt_view, resolve_spec};
use crate::layout::{
    balanced_layout, builtin_views, layout_for_columns, responsive_layout, same_layout,
    LayoutConfig, LayoutView,
};
use crate::text::{
    chars_eq_ignore_ascii_case, chars_of, eq_ignore_ascii_case, string_of, trim, trim_chars,
};

verus! {

/// The live layout state.
pub struct LayoutState {
    /// Follow the terminal width instead of `current`.
    pub auto: bool,
    /// The layout in force when not `auto`.
    pub current: LayoutConfig,
}

/// The mathematical content of a `LayoutState`.
pub struct LayoutStateView {
    pub auto: bool,
    pub current: LayoutView,
}

impl View for LayoutState {
    type V = LayoutStateView;

    open spec fn view(&self) -> LayoutStateView {
        LayoutStateView { auto: self.auto, current: self.current@ }
    }
}

impl LayoutState {
    /// The state before any saved choice is applied: `balanced`, the same geometry an unset
    /// configuration resolves to, so no first frame paints with another one.
    pub fn new() -> (r: LayoutState)
        ensures
            r@ == (LayoutStateView { auto: false, current: balanced_layout() }),
    {
        LayoutState { auto: false, current: LayoutConfig::balanced() }
    }
}

/// The layout in force: the responsive one for the terminal width (80 columns when the width
/// is unknown) under `auto`, else the current one.
pub open spec fn current_spec(st: LayoutStateView, terminal_cols: Option<u16>) -> LayoutView {
    if st.auto {
        responsive_layout(
            match terminal_cols {
                Some(c) => c,
                None => 80,
            },
        )
    } else {
        st.current
    }
}

/// The currently active layout; `terminal_cols` is the terminal width when it could be read.
pub fn current(state: &LayoutState, terminal_cols: Option<u16>) -> (r: LayoutConfig)
    ensures
        r@ == current_spec(state@, terminal_cols),
{
    if state.auto {
        let cols: u16 = match terminal_cols {
            Some(c) => c,
            None => 80,
        };
        return layout_for_columns(cols);
    }
    state.current.clone()
}

/// `name` asks for the width-following layout: it is `auto` up to ASCII case.
pub open spec fn is_auto(name: Seq<char>) -> bool {
    eq_ignore_ascii_case(name, "auto"@)
}

/// Whether `name` is `auto` up to ASCII case.
pub fn is_auto_name(name: &str) -> (r: bool)
    ensures
        r == is_auto(name@),
{
    let cs = chars_of(name);
    let auto = chars_of("auto");
    chars_eq_ignore_ascii_case(cs.as_slice(), auto.as_slice())
}

/// Whether a layout request asks for `auto` (surrounding white space ignored).
pub fn is_auto_request(name: &str) -> (r: bool)
    ensures
        r == is_auto(trim(name@)),
{
    let cs = chars_of(name);
    let t = trim_chars(cs.as_slice());
    let auto = chars_of("auto");
    chars_eq_ignore_ascii_case(t.as_slice(), auto.as_slice())
}

/// The outcome of a layout request: the layout now active (nothing when the name is unknown)
/// and the name to persist as the saved choice (nothing when there is nothing to save).
pub struct LayoutChange {
    pub active: Option<LayoutConfig>,
    pub persist: Option<String>,
}

/// The characters of an optional string.
pub open spec fn opt_chars(o: Option<String>) -> Option<Seq<char>> {
    match o {
        Some(s) => Some(s@),
        None => None,
    }
}

/// The state after asking for layout `name`, where `resolved` is what resolving `name` found:
/// `auto` switches width-following on; any other name switches it off, and installs the
/// resolved layout when there is one.
pub open spec fn set_layout_state(
    st: LayoutStateView,
    name: Seq<char>,
    resolved: Option<LayoutView>,
) -> LayoutStateView {
    if is_auto(trim(name)) {
        LayoutStateView { auto: true, ..st }
    } else {
        match resolved {
            Some(l) => LayoutStateView { auto: false, current: l },
            None => LayoutStateView { auto: false, ..st },
        }
    }
}

/// The name saved when `name` resolved to `l`, where `again` is what resolving `l`'s own name
/// finds: that own name when it leads back to `l` itself (always so for a built-in) and is not
/// `auto`; otherwise (a custom file whose record carries another name) the trimmed name asked
/// for, which does lead back to `l`.
pub open spec fn persist_name(name: Seq<char>, l: LayoutView, again: Option<LayoutView>) -> Seq<
    char,
> {
    if again == Some(l) && !is_auto(l.name) {
        l.name
    } else {
        trim(name)
    }
}

/// Activate layout `name`. `resolved` is the result of `resolve_layout` for `name` (consulted
/// only when `name` is not `auto`), `own_resolved` the result of `resolve_layout` for the
/// resolved layout's own name (consulted only when `name` resolved), and `terminal_cols` the
/// terminal width when it could be read (consulted only for `auto`). Returns the layout now
/// active (`None` when the name is unknown) and the name to persist: `auto`, or the name that
/// `persist_name` picks, so that the same layout is resolved again at the next start.
pub fn set_layout(
    state: &mut LayoutState,
    name: &str,
    resolved: Option<LayoutConfig>,
    own_resolved: Option<LayoutConfig>,
    terminal_cols: Option<u16>,
) -> (r: LayoutChange)
    ensures
        final(state)@ == set_layout_state(old(state)@, name@, opt_view(resolved)),
        opt_view(r.active) == if is_auto(trim(name@)) {
            Some(current_spec(final(state)@, terminal_cols))
        } else {
            opt_view(resolved)
        },
        opt_chars(r.persist) == if is_auto(trim(name@)) {
            Some("auto"@)
        } else {
            match resolved {
                Some(l) => Some(persist_name(name@, l@, opt_view(own_resolved))),
                None => None,
            }
        },
{
    if is_auto_request(name) {
        state.auto = true;
        let active = current(state, terminal_cols);
        return LayoutChange { active: Some(active), persist: Some(String::from_str("auto")) };
    }
    state.auto = false;
    match resolved {
        Some(l) => {
            state.current = l.clone();
            let leads_back = match &own_resolved {
                Some(again) => same_layout(again, &l),
                None => false,
            };
            let persist = if leads_back && !is_auto_name(l.name.as_str()) {
                l.name.clone()
            } else {
                let cs = chars_of(name);
                string_of(trim_chars(cs.as_slice()).as_slice())
            };
            LayoutChange { active: Some(l), persist: Some(persist) }
        },
        None => LayoutChange { active: None, persist: None },
    }
}

/// The saved layout name, `balanced` when nothing is saved.
pub open spec fn saved_name_spec(saved: Option<Seq<char>>) -> Seq<char> {
    match saved {
        Some(s) => s,
        None => "balanced"@,
    }
}

/// The layout name to apply at startup: the saved one, or `balanced` when nothing is saved.
pub fn saved_layout_name(saved: Option<String>) -> (r: String)
    ensures
        r@ == saved_name_spec(opt_chars(saved)),
{
    match saved {
        Some(s) => s,
        None => String::from_str("balanced"),
    }
}

/// The state after applying the saved layout name `name` (see `saved_layout_name`), where
/// `resolved` is what resolving it found: `auto` (matched exactly, up to ASCII case) switches
/// width-following on; any other name switches it off and installs the resolved layout when
/// there is one.
pub open spec fn apply_saved_state(
    st: LayoutStateView,
    name: Seq<char>,
    resolved: Option<LayoutView>,
) -> LayoutStateView {
    if is_auto(name) {
        LayoutStateView { auto: true, ..st }
    } else {
        match resolved {
            Some(l) => LayoutStateView { auto: false, current: l },
            None => LayoutStateView { auto: false, ..st },
        }
    }
}

/// Load the persisted layout into the live state; called once at startup.
pub fn apply_saved_layout(state: &mut LayoutState, name: &str, resolved: Option<LayoutConfig>)
    ensures
        final(state)@ == apply_saved_state(old(state)@, name@, opt_view(resolved)),
{
    if is_auto_name(name) {
        state.auto = true;
        return ;
    }
    state.auto = false;
    if let Some(l) = resolved {
        state.current = l;
    }
}

/// Read-after-write law: once layout `name` is set, the active layout is what the request
/// returned: the resolved layout for a known name, whatever the terminal width; for `auto`, the
/// responsive layout of the terminal width at the time of reading.
pub proof fn lemma_set_then_current(
    st: LayoutStateView,
    name: Seq<char>,
    resolved: Option<LayoutView>,
    cols: Option<u16>,
)
    ensures
        !is_auto(trim(name)) && resolved.is_some() ==> current_spec(
            set_layout_state(st, name, resolved),
            cols,
        ) == resolved.unwrap(),
        is_auto(trim(name)) ==> current_spec(set_layout_state(st, name, resolved), cols)
            == responsive_layout(
            match cols {
                Some(c) => c,
                None => 80,
            },
        ),
{
}

/// An unknown name changes nothing but switching `auto` off: the current layout stays.
pub proof fn lemma_unknown_name_keeps_layout(st: LayoutStateView, name: Seq<char>)
    requires
        !is_auto(trim(name)),
    ensures
        set_layout_state(st, name, None).current == st.current,
        !set_layout_state(st, name, None).auto,
{
}

/// Startup law: with nothing saved, applying the saved layout keeps the initial geometry
/// (`balanced`), whatever custom files exist.
pub proof fn lemma_unset_config_keeps_initial_geometry(custom: Option<LayoutView>)
    ensures
        ({
            let name = saved_name_spec(None);
            let st = LayoutStateView { auto: false, current: balanced_layout() };
            let after = apply_saved_state(st, name, resolve_spec(name, custom));
            after == st
        }),
{
    reveal_strlit("balanced");
    reveal_strlit("auto");
    let name = saved_name_spec(None);
    crate::text::lemma_trim_plain(name);
    assert(eq_ignore_ascii_case(trim(name), crate::layout::builtin_views()[1].name));
    crate::catalog::lemma_resolve_builtin(name, custom, 1);
    assert(!is_auto(name));
}


/// Persistence law: a known layout picked by name is restored at the next start. `custom` is
/// what the custom files for the trimmed request hold and `custom_own` what those for the
/// resolved layout's own name hold; applying the name that `set_layout` persisted, resolved
/// against the files for that name, installs the layout the pick activated.
pub proof fn lemma_persisted_choice_restores(
    start: LayoutStateView,
    st: LayoutStateView,
    name: Seq<char>,
    custom: Option<LayoutView>,
    custom_own: Option<LayoutView>,
    cols: Option<u16>,
)
    requires
        !is_auto(trim(name)),
        resolve_spec(name, custom).is_some(),
    ensures
        ({
            let l = resolve_spec(name, custom).unwrap();
            let again = resolve_spec(l.name, custom_own);
            let persisted = persist_name(name, l, again);
            let files = if again == Some(l) && !is_auto(l.name) {
                custom_own
            } else {
                custom
            };
            let active = current_spec(set_layout_state(st, name, resolve_spec(name, custom)), cols);
            let restored = apply_saved_state(start, persisted, resolve_spec(persisted, files));
            &&& active == l
            &&& current_spec(restored, cols) == l
        }),
{
    crate::text::lemma_trim_idempotent(name);
}

/// A built-in picked by any spelling (ASCII case, surrounding white space) is saved under the
/// built-in's own name.
pub proof fn lemma_builtin_pick_saves_own_name(
    name: Seq<char>,
    custom: Option<LayoutView>,
    custom_own: Option<LayoutView>,
    k: int,
)
    requires
        0 <= k < 5,
        eq_ignore_ascii_case(trim(name), builtin_views()[k].name),
    ensures
        resolve_spec(name, custom) == Some(builtin_views()[k]),
        persist_name(
            name,
            builtin_views()[k],
            resolve_spec(builtin_views()[k].name, custom_own),
        ) == builtin_views()[k].name,
{
    reveal_strlit("default");
    reveal_strlit("balanced");
    reveal_strlit("polished");
    reveal_strlit("dense");
    reveal_strlit("spacious");
    reveal_strlit("auto");
    let b = builtin_views()[k];
    crate::catalog::lemma_resolve_builtin(name, custom, k);
    crate::text::lemma_trim_plain(b.name);
    assert(eq_ignore_ascii_case(trim(b.name), b.name));
    crate::catalog::lemma_resolve_builtin(b.name, custom_own, k);
    assert(!is_auto(b.name));
}

} // verus!
