//! The compiled-in 256-colour palette: one hue per role, plus the semantic set and a
//! code-syntax sub-palette.

use vstd::prelude::*;

verus! {

/// Magenta — brand and structure (prompt arrow, tool block, headings, splash wordmark).
pub const ACCENT: u8 = 213;

/// Dim magenta — secondary: targets/values, quiet rules/borders.
pub const ACCENT_DIM: u8 = 177;

/// Neutral grey for secondary text.
pub const MUTED: u8 = 245;

/// Very faint grey — separators, the code-block rule, timestamps.
pub const FAINT: u8 = 240;

/// Success / confirmation / added.
pub const OK: u8 = 84;

/// Error / failure / removed.
pub const ERR: u8 = 203;

/// Warning / caution.
pub const WARN: u8 = 220;

/// Links and inline code.
pub const LINK: u8 = 81;

/// Code keywords (magenta).
pub const CODE_KEYWORD: u8 = 213;

/// Code strings (green).
pub const CODE_STRING: u8 = 120;

/// Code numbers (cyan).
pub const CODE_NUMBER: u8 = 81;

/// Code comments (grey).
pub const CODE_COMMENT: u8 = 245;

/// The left rule / box border of code blocks.
pub const CODE_RULE: u8 = 240;

/// The user's own words in the transcript.
pub const USER: u8 = 81;

/// The assistant gutter / attribution mark.
pub const ASSISTANT: u8 = 213;

/// Tool-call names and targets.
pub const TOOL: u8 = 120;

/// The reasoning / live-status channel — the working caption's hue.
pub const REASONING: u8 = 141;

/// The HUD strip text.
pub const HEADER: u8 = 87;

/// Splash wordmark gradient, top row first.
pub const TITLE: [u8; 5] = [213, 207, 171, 141, 105];

/// Four accent tones (splash groups, command panel, spinner).
pub const TONE: [u8; 4] = [213, 81, 120, 220];

/// The compiled-in palette, one record so the paint path can read every role from one value.
#[derive(Clone, Copy, Debug, PartialEq, Eq)]
pub struct ThemePalette {
    pub accent: u8,
    pub accent_dim: u8,
    pub muted: u8,
    pub faint: u8,
    pub ok: u8,
    pub err: u8,
    pub warn: u8,
    pub link: u8,
    pub code_keyword: u8,
    pub code_string: u8,
    pub code_number: u8,
    pub code_comment: u8,
    pub code_rule: u8,
    /// The user's own words in the transcript (their turn).
    pub user: u8,
    /// The assistant gutter / attribution mark.
    pub assistant: u8,
    /// Tool-call names and targets.
    pub tool: u8,
    /// The reasoning / live-status channel (the working caption).
    pub reasoning: u8,
    /// The HUD strip text.
    pub header: u8,
    /// Five-stop gradient for the splash block-art wordmark, top row first.
    pub title: [u8; 5],
    /// Four accent tones: splash group headings, command panel, spinner.
    pub tone: [u8; 4],
}

/// The palette holds each role's constant.
pub open spec fn is_compiled_palette(p: ThemePalette) -> bool {
    &&& p.accent == ACCENT
    &&& p.accent_dim == ACCENT_DIM
    &&& p.muted == MUTED
    &&& p.faint == FAINT
    &&& p.ok == OK
    &&& p.err == ERR
    &&& p.warn == WARN
    &&& p.link == LINK
    &&& p.code_keyword == CODE_KEYWORD
    &&& p.code_string == CODE_STRING
    &&& p.code_number == CODE_NUMBER
    &&& p.code_comment == CODE_COMMENT
    &&& p.code_rule == CODE_RULE
    &&& p.user == USER
    &&& p.assistant == ASSISTANT
    &&& p.tool == TOOL
    &&& p.reasoning == REASONING
    &&& p.header == HEADER
    &&& p.title@ == seq![213u8, 207, 171, 141, 105]
    &&& p.tone@ == seq![213u8, 81, 120, 220]
}

impl Default for ThemePalette {
    fn default() -> (r: Self)
        ensures
            is_compiled_palette(r),
    {
        let r = ThemePalette {
            accent: ACCENT,
            accent_dim: ACCENT_DIM,
            muted: MUTED,
            faint: FAINT,
            ok: OK,
            err: ERR,
            warn: WARN,
            link: LINK,
            code_keyword: CODE_KEYWORD,
            code_string: CODE_STRING,
            code_number: CODE_NUMBER,
            code_comment: CODE_COMMENT,
            code_rule: CODE_RULE,
            user: USER,
            assistant: ASSISTANT,
            tool: TOOL,
            reasoning: REASONING,
            header: HEADER,
            title: TITLE,
            tone: TONE,
        };
        assert(r.title@ =~= seq![213u8, 207, 171, 141, 105]);
        assert(r.tone@ =~= seq![213u8, 81, 120, 220]);
        r
    }
}

/// The one active palette (compiled in; no runtime switching).
pub fn current_palette() -> (r: ThemePalette)
    ensures
        is_compiled_palette(r),
{
    ThemePalette::default()
}

pub fn accent_idx() -> (r: u8)
    ensures
        r == ACCENT,
{
    current_palette().accent
}

pub fn accent_dim_idx() -> (r: u8)
    ensures
        r == ACCENT_DIM,
{
    current_palette().accent_dim
}

pub fn muted_idx() -> (r: u8)
    ensures
        r == MUTED,
{
    current_palette().muted
}

pub fn faint_idx() -> (r: u8)
    ensures
        r == FAINT,
{
    current_palette().faint
}

pub fn ok_idx() -> (r: u8)
    ensures
        r == OK,
{
    current_palette().ok
}

pub fn err_idx() -> (r: u8)
    ensures
        r == ERR,
{
    current_palette().err
}

pub fn warn_idx() -> (r: u8)
    ensures
        r == WARN,
{
    current_palette().warn
}

pub fn link_idx() -> (r: u8)
    ensures
        r == LINK,
{
    current_palette().link
}

pub fn code_keyword_idx() -> (r: u8)
    ensures
        r == CODE_KEYWORD,
{
    current_palette().code_keyword
}

pub fn code_string_idx() -> (r: u8)
    ensures
        r == CODE_STRING,
{
    current_palette().code_string
}

pub fn code_number_idx() -> (r: u8)
    ensures
        r == CODE_NUMBER,
{
    current_palette().code_number
}

pub fn code_comment_idx() -> (r: u8)
    ensures
        r == CODE_COMMENT,
{
    current_palette().code_comment
}

pub fn code_rule_idx() -> (r: u8)
    ensures
        r == CODE_RULE,
{
    current_palette().code_rule
}

pub fn assistant_idx() -> (r: u8)
    ensures
        r == ASSISTANT,
{
    current_palette().assistant
}

pub fn tool_idx() -> (r: u8)
    ensures
        r == TOOL,
{
    current_palette().tool
}

/// The splash wordmark gradient (5 stops, top row first).
pub fn title_ramp() -> (r: [u8; 5])
    ensures
        r@ == seq![213u8, 207, 171, 141, 105],
{
    current_palette().title
}

/// The four accent tones, in order.
pub open spec fn tones() -> Seq<u8> {
    seq![213u8, 81, 120, 220]
}

/// One of the four accent tones; the index wraps.
pub fn tone_idx(i: usize) -> (r: u8)
    ensures
        r == tones()[(i % 4) as int],
{
    let t = current_palette().tone;
    t[i % 4]
}

/// Tones wrap: indices four apart give the same tone.
pub proof fn lemma_tone_wraps(i: usize)
    requires
        i + 4 <= usize::MAX,
    ensures
        tones()[(i % 4) as int] == tones()[((i + 4) % 4) as int],
{
}

/// The semantic colours (accent, ok, err, warn, link) are pairwise distinct, and so are the role
/// colours (user, assistant, tool, reasoning, header): no two roles share a hue.
pub proof fn lemma_palette_roles_distinct()
    ensures
        ({
            let semantic = seq![ACCENT, OK, ERR, WARN, LINK];
            forall|i: int, j: int| 0 <= i < j < 5 ==> semantic[i] != semantic[j]
        }),
        ({
            let roles = seq![USER, ASSISTANT, TOOL, REASONING, HEADER];
            forall|i: int, j: int| 0 <= i < j < 5 ==> roles[i] != roles[j]
        }),
{
}

} // verus!
