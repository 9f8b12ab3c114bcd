use aizen_ui::theme::{
    accent_dim_idx, accent_idx, assistant_idx, code_comment_idx, code_keyword_idx,
    code_number_idx, code_rule_idx, code_string_idx, current_palette, err_idx, faint_idx,
    link_idx, muted_idx, ok_idx, title_ramp, tone_idx, tool_idx, warn_idx, ThemePalette, ACCENT,
    ASSISTANT, ERR, HEADER, LINK, OK, REASONING, TOOL, USER, WARN,
};

#[test]
fn semantic_colours_are_distinct() {
    let all = [ACCENT, OK, ERR, WARN, LINK];
    for (i, a) in all.iter().enumerate() {
        for b in &all[i + 1..] {
            assert_ne!(a, b, "two semantic colours share index {a}");
        }
    }
}

#[test]
fn role_colours_are_distinct() {
    let roles = [USER, ASSISTANT, TOOL, REASONING, HEADER];
    for (i, a) in roles.iter().enumerate() {
        for b in &roles[i + 1..] {
            assert_ne!(a, b, "two role tokens share index {a}");
        }
    }
}

#[test]
#[allow(unused_comparisons)]
fn indices_and_ramps_have_sane_shape() {
    let pal = current_palette();
    for c in [
        pal.accent,
        pal.accent_dim,
        pal.muted,
        pal.faint,
        pal.ok,
        pal.err,
        pal.warn,
        pal.link,
        pal.user,
        pal.assistant,
        pal.tool,
        pal.reasoning,
        pal.header,
    ] {
        assert!(c <= 255);
    }
    assert_eq!(title_ramp().len(), 5);
    assert_eq!(tone_idx(0), tone_idx(4));
}

#[test]
fn getters_read_the_palette() {
    assert_eq!(accent_idx(), 213);
    assert_eq!(accent_dim_idx(), 177);
    assert_eq!(muted_idx(), 245);
    assert_eq!(faint_idx(), 240);
    assert_eq!(ok_idx(), 84);
    assert_eq!(err_idx(), 203);
    assert_eq!(warn_idx(), 220);
    assert_eq!(link_idx(), 81);
    assert_eq!(code_keyword_idx(), 213);
    assert_eq!(code_string_idx(), 120);
    assert_eq!(code_number_idx(), 81);
    assert_eq!(code_comment_idx(), 245);
    assert_eq!(code_rule_idx(), 240);
    assert_eq!(assistant_idx(), 213);
    assert_eq!(tool_idx(), 120);
    assert_eq!(title_ramp(), [213, 207, 171, 141, 105]);
    assert_eq!(current_palette(), ThemePalette::default());
}

#[test]
fn tones_wrap_every_four() {
    assert_eq!(
        [tone_idx(0), tone_idx(1), tone_idx(2), tone_idx(3)],
        [213, 81, 120, 220]
    );
    assert_eq!(tone_idx(5), tone_idx(1));
    assert_eq!(tone_idx(usize::MAX), tone_idx(3));
}
