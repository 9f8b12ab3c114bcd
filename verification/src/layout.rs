//! Layout configuration: how much breathing room messages get, which chrome shows, and how
//! dense the transcript is. Built-ins are `default`, `balanced`, `polished`, `dense` and
//! `spacious`.

use vstd::prelude::*;

verus! {

/// Spacing and visibility knobs for one frame.
#[derive(Debug, PartialEq, Eq)]
pub struct LayoutConfig {
    pub name: String,
    /// Blank lines inserted between transcript blocks.
    pub message_separation: usize,
    /// Left padding cells for transcript rows.
    pub message_padding_left: usize,
    /// Show the HUD status strip (model · tokens · turns) above the input box.
    pub show_header: bool,
    /// Show the input-box framing rules and footer chrome.
    pub show_footer: bool,
    /// Show the right-side context meter and health chip in the HUD.
    pub show_context_meter: bool,
    /// Compact tool rows: a single line `icon name — digest` instead of the two-line call/result.
    pub compact_tools: bool,
    /// Max composer rows before scrolling.
    pub max_input_rows: usize,
    /// Show keyboard hints on the empty composer row.
    pub show_input_hints: bool,
}

/// The mathematical content of a `LayoutConfig`: its name as characters, and its knobs.
#[verifier::ext_equal]
pub struct LayoutView {
    pub name: Seq<char>,
    pub message_separation: nat,
    pub message_padding_left: nat,
    pub show_header: bool,
    pub show_footer: bool,
    pub show_context_meter: bool,
    pub compact_tools: bool,
    pub max_input_rows: nat,
    pub show_input_hints: bool,
}

impl View for LayoutConfig {
    type V = LayoutView;

    open spec fn view(&self) -> LayoutView {
        LayoutView {
            name: self.name@,
            message_separation: self.message_separation as nat,
            message_padding_left: self.message_padding_left as nat,
            show_header: self.show_header,
            show_footer: self.show_footer,
            show_context_meter: self.show_context_meter,
            compact_tools: self.compact_tools,
            max_input_rows: self.max_input_rows as nat,
            show_input_hints: self.show_input_hints,
        }
    }
}

impl Clone for LayoutConfig {
    fn clone(&self) -> (r: Self)
        ensures
            r@ == self@,
    {
        LayoutConfig {
            name: self.name.clone(),
            message_separation: self.message_separation,
            message_padding_left: self.message_padding_left,
            show_header: self.show_header,
            show_footer: self.show_footer,
            show_context_meter: self.show_context_meter,
            compact_tools: self.compact_tools,
            max_input_rows: self.max_input_rows,
            show_input_hints: self.show_input_hints,
        }
    }
}

/// Whether two layouts are the same: same name, character for character, and same knobs.
pub fn same_layout(a: &LayoutConfig, b: &LayoutConfig) -> (r: bool)
    ensures
        r == (a@ == b@),
{
    let an = crate::text::chars_of(a.name.as_str());
    let bn = crate::text::chars_of(b.name.as_str());
    let names = crate::text::chars_equal(an.as_slice(), bn.as_slice());
    let r = names && a.message_separation == b.message_separation && a.message_padding_left
        == b.message_padding_left && a.show_header == b.show_header && a.show_footer
        == b.show_footer && a.show_context_meter == b.show_context_meter && a.compact_tools
        == b.compact_tools && a.max_input_rows == b.max_input_rows && a.show_input_hints
        == b.show_input_hints;
    proof {
        if r {
            assert(a@ =~= b@);
        }
    }
    r
}

/// The `default` layout: no left pad, full tool rows, every piece of chrome shown.
pub open spec fn default_layout() -> LayoutView {
    LayoutView {
        name: "default"@,
        message_separation: 1,
        message_padding_left: 0,
        show_header: true,
        show_footer: true,
        show_context_meter: true,
        compact_tools: false,
        max_input_rows: 10,
        show_input_hints: true,
    }
}

/// The `dense` layout: no separation, compact tools, no context meter or hints, short composer.
pub open spec fn dense_layout() -> LayoutView {
    LayoutView {
        name: "dense"@,
        message_separation: 0,
        message_padding_left: 0,
        show_header: true,
        show_footer: true,
        show_context_meter: false,
        compact_tools: true,
        max_input_rows: 5,
        show_input_hints: false,
    }
}

/// The `polished` layout.
pub open spec fn polished_layout() -> LayoutView {
    LayoutView {
        name: "polished"@,
        message_separation: 1,
        message_padding_left: 1,
        show_header: true,
        show_footer: true,
        show_context_meter: true,
        compact_tools: true,
        max_input_rows: 8,
        show_input_hints: true,
    }
}

/// The `spacious` layout: two lines of separation and two cells of padding.
pub open spec fn spacious_layout() -> LayoutView {
    LayoutView {
        name: "spacious"@,
        message_separation: 2,
        message_padding_left: 2,
        show_header: true,
        show_footer: true,
        show_context_meter: true,
        compact_tools: false,
        max_input_rows: 10,
        show_input_hints: true,
    }
}

/// The `balanced` layout: like `polished` with a shorter composer.
pub open spec fn balanced_layout() -> LayoutView {
    LayoutView {
        name: "balanced"@,
        message_separation: 1,
        message_padding_left: 1,
        show_header: true,
        show_footer: true,
        show_context_meter: true,
        compact_tools: true,
        max_input_rows: 6,
        show_input_hints: true,
    }
}

/// The built-in layouts in picker order.
pub open spec fn builtin_views() -> Seq<LayoutView> {
    seq![default_layout(), balanced_layout(), polished_layout(), dense_layout(), spacious_layout()]
}

fn owned(s: &str) -> (r: String)
    ensures
        r@ == s@,
{
    String::from_str(s)
}

impl Default for LayoutConfig {
    fn default() -> (r: Self)
        ensures
            r@ == default_layout(),
    {
        LayoutConfig {
            name: owned("default"),
            message_separation: 1,
            message_padding_left: 0,
            show_header: true,
            show_footer: true,
            show_context_meter: true,
            compact_tools: false,
            max_input_rows: 10,
            show_input_hints: true,
        }
    }
}

impl LayoutConfig {
    pub fn dense() -> (r: Self)
        ensures
            r@ == dense_layout(),
    {
        LayoutConfig {
            name: owned("dense"),
            message_separation: 0,
            message_padding_left: 0,
            show_header: true,
            show_footer: true,
            show_context_meter: false,
            compact_tools: true,
            max_input_rows: 5,
            show_input_hints: false,
        }
    }

    /// A balanced presentation for normal terminals: a little breathing room around the
    /// transcript, compact tool activity, and a context meter that stays useful without
    /// dominating the footer.
    pub fn polished() -> (r: Self)
        ensures
            r@ == polished_layout(),
    {
        LayoutConfig {
            name: owned("polished"),
            message_separation: 1,
            message_padding_left: 1,
            show_header: true,
            show_footer: true,
            show_context_meter: true,
            compact_tools: true,
            max_input_rows: 8,
            show_input_hints: true,
        }
    }

    pub fn spacious() -> (r: Self)
        ensures
            r@ == spacious_layout(),
    {
        LayoutConfig {
            name: owned("spacious"),
            message_separation: 2,
            message_padding_left: 2,
            show_header: true,
            show_footer: true,
            show_context_meter: true,
            compact_tools: false,
            max_input_rows: 10,
            show_input_hints: true,
        }
    }

    /// The recommendation for a normal terminal: one blank line of air, a single-cell left pad,
    /// compact tool activity and the context meter on; a shorter composer than `polished` so
    /// the conversation keeps most of the screen.
    pub fn balanced() -> (r: Self)
        ensures
            r@ == balanced_layout(),
    {
        LayoutConfig {
            name: owned("balanced"),
            message_separation: 1,
            message_padding_left: 1,
            show_header: true,
            show_footer: true,
            show_context_meter: true,
            compact_tools: true,
            max_input_rows: 6,
            show_input_hints: true,
        }
    }
}

/// Built-in layouts in picker order.
pub fn builtin_layouts() -> (r: Vec<LayoutConfig>)
    ensures
        r.len() == 5,
        forall|k: int| 0 <= k < 5 ==> (#[trigger] r@[k])@ == builtin_views()[k],
{
    let mut r: Vec<LayoutConfig> = Vec::new();
    r.push(LayoutConfig::default());
    r.push(LayoutConfig::balanced());
    r.push(LayoutConfig::polished());
    r.push(LayoutConfig::dense());
    r.push(LayoutConfig::spacious());
    r
}

/// The layout a terminal `cols` wide gets: `dense` below 80 columns, `balanced` below 120,
/// `spacious` from there on.
pub open spec fn responsive_layout(cols: u16) -> LayoutView {
    if cols < 80 {
        dense_layout()
    } else if cols < 120 {
        balanced_layout()
    } else {
        spacious_layout()
    }
}

/// Select the responsive built-in layout for a terminal width.
pub fn layout_for_columns(cols: u16) -> (r: LayoutConfig)
    ensures
        r@ == responsive_layout(cols),
{
    if cols < 80 {
        LayoutConfig::dense()
    } else if cols < 120 {
        LayoutConfig::balanced()
    } else {
        LayoutConfig::spacious()
    }
}

} // verus!
