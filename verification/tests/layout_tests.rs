use aizen_ui::catalog::{
    custom_layout_files, custom_layout_names, custom_lookup_name, find_builtin, layout_lookup_name, list_layouts,
    resolve_layout,
};
use aizen_ui::jsonc::strip_jsonc;
use aizen_ui::layout::{builtin_layouts, layout_for_columns, LayoutConfig};
use aizen_ui::session::{
    apply_saved_layout, current, is_auto_name, is_auto_request, saved_layout_name, set_layout,
    LayoutState,
};

#[test]
fn builtins_resolve() {
    assert!(resolve_layout("default", None).is_some());
    assert!(resolve_layout("dense", None).is_some());
    assert!(resolve_layout("DENSE", None).is_some());
    assert!(resolve_layout("spacious", None).is_some());
    assert!(resolve_layout("nope", None).is_none());
}

#[test]
fn dense_is_compact() {
    let d = LayoutConfig::dense();
    assert_eq!(d.message_separation, 0);
    assert!(d.compact_tools);
    assert!(!d.show_context_meter);
    assert!(!d.show_input_hints);
}

#[test]
fn polished_balances_spacing_and_tool_density() {
    let p = LayoutConfig::polished();
    assert_eq!(p.message_padding_left, 1);
    assert!(p.compact_tools);
    assert!(p.show_context_meter);
    assert_eq!(p.max_input_rows, 8);
    assert!(p.show_input_hints);
}

#[test]
fn spacious_gives_wide_terminals_more_breathing_room() {
    let s = LayoutConfig::spacious();
    assert_eq!(s.message_separation, 2);
    assert_eq!(s.message_padding_left, 2);
    assert!(!s.compact_tools);
}

#[test]
fn responsive_breakpoints_are_stable() {
    assert_eq!(layout_for_columns(79).name, "dense");
    assert_eq!(layout_for_columns(80).name, "balanced");
    assert_eq!(layout_for_columns(119).name, "balanced");
    assert_eq!(layout_for_columns(120).name, "spacious");
}

#[test]
fn balanced_is_distinct_from_polished() {
    let b = LayoutConfig::balanced();
    let p = LayoutConfig::polished();
    assert!(b.compact_tools && b.show_context_meter);
    assert_eq!(b.message_padding_left, 1);
    assert!(
        b.max_input_rows < p.max_input_rows,
        "balanced keeps a shorter composer so the transcript dominates"
    );
}

#[test]
fn default_keeps_the_legacy_safe_geometry() {
    let d = LayoutConfig::default();
    assert_eq!(d.message_padding_left, 0);
    assert!(!d.compact_tools);
    assert_eq!(d.max_input_rows, 10);
    assert!(d.show_input_hints);
}

#[test]
fn jsonc_comments_stripped() {
    let raw = r#"{
            // a comment
            "name": "x", /* inline */
            "message_separation": 2
        }"#;
    let clean = strip_jsonc(raw);
    let v: serde_json::Value = serde_json::from_str(&clean).expect("parses");
    assert_eq!(v["message_separation"], 2);
}

#[test]
fn jsonc_keeps_comment_markers_inside_strings() {
    let raw = "{\"url\": \"http://x/*y*/\", \"q\": \"a\\\"//b\"} // tail";
    assert_eq!(strip_jsonc(raw), "{\"url\": \"http://x/*y*/\", \"q\": \"a\\\"//b\"} ");
}

#[test]
fn jsonc_line_comment_keeps_its_newline() {
    assert_eq!(strip_jsonc("a // c\nb"), "a \nb");
    assert_eq!(strip_jsonc("a /* c */b"), "a b");
    assert_eq!(strip_jsonc("a /* open"), "a ");
    assert_eq!(strip_jsonc("a // open"), "a ");
    assert_eq!(strip_jsonc("x / y"), "x / y");
    assert_eq!(strip_jsonc("/*/ still */z"), "z");
}

#[test]
fn jsonc_plain_text_unchanged() {
    let raw = "{\"name\": \"plain\", \"max_input_rows\": 4}";
    assert_eq!(strip_jsonc(raw), raw);
}

#[test]
fn builtins_are_in_picker_order() {
    let names: Vec<String> = builtin_layouts().into_iter().map(|l| l.name).collect();
    assert_eq!(names, vec!["default", "balanced", "polished", "dense", "spacious"]);
}

#[test]
fn resolve_ignores_case_and_surrounding_space() {
    let l = resolve_layout("  Spacious\t", None).expect("built-in");
    assert_eq!(l.name, "spacious");
    assert!(resolve_layout("   ", None).is_none());
    assert!(resolve_layout("", None).is_none());
    assert_eq!(layout_lookup_name("  x y "), Some("x y".to_string()));
    assert_eq!(layout_lookup_name(" \u{3000} "), None);
}

#[test]
fn builtin_wins_over_custom_file() {
    let mut custom = LayoutConfig::dense();
    custom.name = "mine".to_string();
    let l = resolve_layout("Balanced", Some(custom)).expect("built-in");
    assert_eq!(l.name, "balanced");
    assert_eq!(l.max_input_rows, 6);
}

#[test]
fn custom_layout_takes_the_requested_name_when_blank() {
    let mut custom = LayoutConfig::spacious();
    custom.name = "  ".to_string();
    let l = resolve_layout(" wide ", Some(custom)).expect("custom");
    assert_eq!(l.name, "wide");
    assert_eq!(l.message_separation, 2);

    let mut named = LayoutConfig::dense();
    named.name = "tight".to_string();
    let l = resolve_layout("wide", Some(named)).expect("custom");
    assert_eq!(l.name, "tight");
}

#[test]
fn custom_lookup_only_for_unknown_names() {
    assert_eq!(custom_lookup_name("dense"), None);
    assert_eq!(custom_lookup_name("  "), None);
    assert_eq!(custom_lookup_name(" mine "), Some("mine".to_string()));
    assert!(find_builtin("POLISHED").is_some());
    assert!(find_builtin("polish").is_none());
}

#[test]
fn list_puts_builtins_first_and_drops_case_duplicates() {
    let custom = vec![
        "Dense".to_string(),
        "mine".to_string(),
        "MINE".to_string(),
        "zeta".to_string(),
    ];
    let names = list_layouts(&custom);
    assert_eq!(
        names,
        vec!["default", "balanced", "polished", "dense", "spacious", "mine", "zeta"]
    );
}

#[test]
fn custom_names_are_json_stems_sorted() {
    let files = vec![
        "zed.jsonc".to_string(),
        "alpha.json".to_string(),
        "notes.txt".to_string(),
        ".json".to_string(),
        "noext".to_string(),
        "b.c.json".to_string(),
        "Beta.json".to_string(),
        "x.JSON".to_string(),
    ];
    let names = custom_layout_names(&files);
    assert_eq!(names, vec!["Beta", "alpha", "b.c", "zed"]);
}

#[test]
fn set_layout_then_current_reads_it_back() {
    let mut st = LayoutState::new();
    assert_eq!(current(&st, Some(200)).name, "balanced");
    let resolved = resolve_layout("dense", None);
    let change = set_layout(&mut st, "dense", resolved, resolve_layout("dense", None), None);
    assert_eq!(change.active.expect("known").name, "dense");
    assert_eq!(change.persist, Some("dense".to_string()));
    assert_eq!(current(&st, Some(200)).name, "dense");
}

#[test]
fn auto_follows_the_terminal_width() {
    let mut st = LayoutState::new();
    assert!(is_auto_request("  AUTO "));
    assert!(!is_auto_name(" auto"));
    let change = set_layout(&mut st, " Auto ", None, None, Some(100));
    assert_eq!(change.active.expect("auto").name, "balanced");
    assert_eq!(change.persist, Some("auto".to_string()));
    assert!(st.auto);
    assert_eq!(current(&st, Some(60)).name, "dense");
    assert_eq!(current(&st, Some(130)).name, "spacious");
    assert_eq!(current(&st, None).name, "balanced");
}

#[test]
fn unknown_layout_keeps_current_and_turns_auto_off() {
    let mut st = LayoutState::new();
    set_layout(&mut st, "spacious", resolve_layout("spacious", None), resolve_layout("spacious", None), None);
    set_layout(&mut st, "auto", None, None, Some(70));
    let change = set_layout(&mut st, "nope", resolve_layout("nope", None), None, None);
    assert!(change.active.is_none());
    assert!(change.persist.is_none());
    assert!(!st.auto);
    assert_eq!(current(&st, Some(70)).name, "spacious");
}

#[test]
fn saved_layout_applies_at_startup() {
    let name = saved_layout_name(None);
    assert_eq!(name, "balanced");
    let mut st = LayoutState::new();
    let resolved = resolve_layout(&name, None);
    apply_saved_layout(&mut st, &name, resolved);
    assert_eq!(current(&st, None).name, "balanced");

    let saved = saved_layout_name(Some("AUTO".to_string()));
    apply_saved_layout(&mut st, &saved, None);
    assert!(st.auto);

    let saved = saved_layout_name(Some("polished".to_string()));
    let resolved = resolve_layout(&saved, None);
    apply_saved_layout(&mut st, &saved, resolved);
    assert!(!st.auto);
    assert_eq!(current(&st, Some(50)).name, "polished");
}

#[test]
fn stripping_never_lengthens() {
    for raw in ["a//b\nc", "/**/", "\"//\"", "x/*y", "{}"] {
        assert!(strip_jsonc(raw).chars().count() <= raw.chars().count());
    }
}

#[test]
fn picker_names_are_distinct_ignoring_case() {
    let names = list_layouts(&vec!["Zed".to_string(), "zed".to_string(), "BALANCED".to_string()]);
    for (i, a) in names.iter().enumerate() {
        for b in &names[i + 1..] {
            assert!(!a.eq_ignore_ascii_case(b), "{a} and {b}");
        }
    }
    assert_eq!(names.len(), 6);
}

#[test]
fn a_custom_pick_persists_the_requested_name() {
    let mut st = LayoutState::new();
    let mut custom = LayoutConfig::dense();
    custom.name = "Bar".to_string();
    let resolved = resolve_layout(" foo ", Some(custom.clone()));
    let change = set_layout(&mut st, " foo ", resolved, resolve_layout("Bar", None), None);
    assert_eq!(change.active.expect("custom").name, "Bar");
    let saved = change.persist.expect("persisted");
    assert_eq!(saved, "foo");

    let mut restarted = LayoutState::new();
    let name = saved_layout_name(Some(saved));
    let resolved = resolve_layout(&name, Some(custom));
    apply_saved_layout(&mut restarted, &name, resolved);
    assert_eq!(current(&restarted, None).name, "Bar");
}

fn is_subsequence(a: &str, b: &str) -> bool {
    let mut rest = b.chars();
    a.chars().all(|c| rest.any(|d| d == c))
}

#[test]
fn jsonc_with_slashes_only_inside_strings_is_unchanged() {
    let raw = "{\"url\": \"https://example.com/a//b\", \"glob\": \"src/*.rs\"}";
    assert_eq!(strip_jsonc(raw), raw);
}

#[test]
fn jsonc_stripping_twice_is_stripping_once() {
    for raw in [
        "{\"a\": 1} // tail\n/* block */ {\"b\": \"//x\"}",
        "/*/ still */z",
        "x //\n/ /* y */* z",
        "a / /b",
    ] {
        let once = strip_jsonc(raw);
        assert_eq!(strip_jsonc(&once), once);
        assert!(is_subsequence(&once, raw));
    }
}

#[test]
fn a_builtin_pick_persists_its_own_name() {
    let mut st = LayoutState::new();
    let resolved = resolve_layout(" DENSE ", None);
    let own = resolve_layout("dense", None);
    let change = set_layout(&mut st, " DENSE ", resolved, own, None);
    assert_eq!(change.active.expect("built-in").name, "dense");
    assert_eq!(change.persist, Some("dense".to_string()));
}

#[test]
fn a_custom_file_whose_name_leads_back_persists_that_name() {
    let mut st = LayoutState::new();
    let mut custom = LayoutConfig::spacious();
    custom.name = "Wide".to_string();
    let resolved = resolve_layout("wide", Some(custom.clone()));
    let own = resolve_layout("Wide", Some(custom.clone()));
    let change = set_layout(&mut st, "wide", resolved, own, None);
    assert_eq!(change.persist, Some("Wide".to_string()));
}

#[test]
fn custom_layout_files_are_tried_json_first() {
    assert_eq!(
        custom_layout_files("foo"),
        vec!["foo.json".to_string(), "foo.jsonc".to_string()]
    );
}
