use aizen_ui::caps::{capitalize_first, capitalize_first_with};
use aizen_ui::measure::{clip_to, clip_to_measured, pad_measured, pad_to};
use aizen_ui::sanitize::{sanitize_keep_sgr, sanitize_text};
use aizen_ui::sgr::{ansi_spans, apply_sgr, basic_color, SpanStyle, TermColor, BOLD, DIM, ITALIC};
use aizen_ui::text::{str_eq_ignore_ascii_case, trim_chars};
use aizen_ui::wrap::{wrap_sgr_row, wrap_sgr_row_measured};

#[test]
fn capitalize_first_polishes_letters_and_noops_everything_else() {
    assert_eq!(capitalize_first("read 310 lines"), "Read 310 lines");
    assert_eq!(capitalize_first("16 match(es)"), "16 match(es)");
    assert_eq!(capitalize_first("Read already"), "Read already");
    assert_eq!(capitalize_first(""), "");
    assert_eq!(capitalize_first("ế abc"), "Ế abc");
    assert_eq!(capitalize_first("· dim"), "· dim");
}

#[test]
fn capitalize_first_may_expand_the_letter() {
    assert_eq!(capitalize_first("ßx"), "SSx");
}

fn plain(rows: &[String]) -> Vec<String> {
    rows.iter()
        .map(|r| console::strip_ansi_codes(r).into_owned())
        .collect()
}

#[test]
fn short_rows_pass_through_byte_identical() {
    let row = "\u{1b}[38;5;213mhi\u{1b}[0m";
    assert_eq!(wrap_sgr_row(row, 40), vec![row.to_string()]);
    assert_eq!(wrap_sgr_row("", 40), vec![String::new()]);
}

#[test]
fn long_prose_wraps_at_spaces_with_indented_continuation() {
    let rows = wrap_sgr_row("aaa bbb ccc ddd eee fff", 10);
    assert_eq!(plain(&rows), vec!["aaa bbb ", "  ccc ddd ", "  eee fff"]);
    for r in &rows {
        assert!(
            console::measure_text_width(r) <= 10,
            "row exceeds width: {r:?}"
        );
    }
}

#[test]
fn styled_rows_keep_colour_and_reset_per_line() {
    let row = "\u{1b}[38;5;213malpha beta gamma delta epsilon\u{1b}[0m";
    let rows = wrap_sgr_row(row, 12);
    assert!(rows.len() >= 2, "must wrap: {rows:?}");
    for r in &rows {
        assert!(
            r.contains("\u{1b}[38;5;213m"),
            "continuation lost its style: {r:?}"
        );
        assert!(r.ends_with("\u{1b}[0m"), "missing reset: {r:?}");
    }
    let mut iter = plain(&rows).into_iter();
    let mut joined = iter.next().unwrap_or_default();
    for r in iter {
        joined.push_str(r.strip_prefix("  ").unwrap_or(&r));
    }
    assert!(joined.contains("alpha beta gamma delta epsilon"));
}

#[test]
fn long_word_without_spaces_hard_splits() {
    let rows = wrap_sgr_row("abcdefghijklmnop", 8);
    assert!(rows.len() >= 2);
    for r in &rows {
        assert!(console::measure_text_width(r) <= 8, "row too wide: {r:?}");
    }
    let mut iter = plain(&rows).into_iter();
    let mut joined = iter.next().unwrap_or_default();
    for r in iter {
        joined.push_str(r.strip_prefix("  ").unwrap_or(&r));
    }
    assert_eq!(joined, "abcdefghijklmnop");
}

#[test]
fn wide_glyphs_count_two_cells() {
    let rows = wrap_sgr_row("一二三四五六七八九", 8);
    assert!(rows.len() >= 2, "must wrap: {rows:?}");
    for r in &rows {
        assert!(console::measure_text_width(r) <= 8, "row too wide: {r:?}");
    }
}

#[test]
fn wrap_width_has_a_floor_of_eight() {
    assert_eq!(
        wrap_sgr_row("abcdefghijkl", 2),
        vec!["abcdefgh".to_string(), "  ijkl".to_string()]
    );
}

#[test]
fn wrap_exact_lines_for_a_style_change() {
    let row = "ab \u{1b}[1mcd ef\u{1b}[0m gh ij kl";
    let rows = wrap_sgr_row(row, 8);
    assert_eq!(
        rows,
        vec![
            "ab \u{1b}[1mcd \u{1b}[0m".to_string(),
            "  \u{1b}[1mef\u{1b}[0m gh ".to_string(),
            "  ij kl".to_string(),
        ]
    );
}

fn base() -> SpanStyle {
    SpanStyle {
        fg: Some(TermColor::White),
        bg: None,
        underline_color: None,
        add_modifier: 0,
        sub_modifier: 0,
    }
}

fn codes(s: &str) -> Vec<char> {
    s.chars().collect()
}

#[test]
fn sgr_codes_fold_into_the_style() {
    let b = base();
    let s = apply_sgr(b, b, &codes("1;31"));
    assert_eq!(s.add_modifier, BOLD);
    assert_eq!(s.fg, Some(TermColor::Red));
    let s2 = apply_sgr(b, s, &codes("22;3;94"));
    assert_eq!(s2.add_modifier, ITALIC);
    assert_eq!(s2.sub_modifier, BOLD | DIM);
    assert_eq!(s2.fg, Some(TermColor::LightBlue));
    assert_eq!(apply_sgr(b, s2, &codes("0")), b);
    assert_eq!(apply_sgr(b, s2, &codes("")), b);
    assert_eq!(apply_sgr(b, s2, &codes(";;")), b);
    assert_eq!(apply_sgr(b, b, &codes("38;5;213")).fg, Some(TermColor::Indexed(213)));
    assert_eq!(apply_sgr(b, b, &codes("38;2;1;2;3")).fg, Some(TermColor::Rgb(1, 2, 3)));
    assert_eq!(apply_sgr(b, b, &codes("48;5;9;1")).add_modifier, BOLD);
    assert_eq!(apply_sgr(b, b, &codes("48;2;1;2;3")), b);
    assert_eq!(apply_sgr(b, s, &codes("39")).fg, Some(TermColor::White));
    assert_eq!(apply_sgr(b, b, &codes("70000;2")).add_modifier, DIM);
    assert_eq!(apply_sgr(b, b, &codes("38;5")), b);
    assert_eq!(basic_color(15), TermColor::White);
    assert_eq!(basic_color(8), TermColor::DarkGray);
}

#[test]
fn spans_split_at_colour_changes() {
    let b = base();
    let spans = ansi_spans("a\u{1b}[31mbc\u{1b}[0md\u{1b}[2Ke", b);
    assert_eq!(spans.len(), 3);
    assert_eq!(spans[0], ("a".to_string(), b));
    assert_eq!(spans[1].0, "bc");
    assert_eq!(spans[1].1.fg, Some(TermColor::Red));
    assert_eq!(spans[2], ("de".to_string(), b));
}

#[test]
fn uncoloured_row_is_one_base_span() {
    let b = base();
    assert_eq!(ansi_spans("plain", b), vec![("plain".to_string(), b)]);
    assert_eq!(ansi_spans("", b), vec![(String::new(), b)]);
    assert_eq!(ansi_spans("\u{1b}[1m", b), vec![(String::new(), b)]);
}

#[test]
fn sanitize_keeps_colour_and_drops_cursor_control() {
    let raw = "\u{1b}[2J\u{1b}[31mred\u{1b}[0m\r\n\tx\u{7}\u{1b}7y";
    assert_eq!(sanitize_keep_sgr(raw), "\u{1b}[31mred\u{1b}[0m\n    xy");
    assert_eq!(sanitize_text(raw), "red\n    xy");
    assert_eq!(sanitize_keep_sgr("ok\u{1b}[12"), "ok");
    assert_eq!(sanitize_keep_sgr("plain text ✓"), "plain text ✓");
}

#[test]
fn clip_and_pad_by_columns() {
    assert_eq!(clip_to("hello", 0), "");
    assert_eq!(clip_to("hello", 5), "hello");
    assert_eq!(clip_to("hello world", 6), "hello…");
    assert_eq!(clip_to("一二三", 4), "一…");
    assert_eq!(pad_to("ab", 5), "ab   ");
    assert_eq!(pad_to("abcdef", 4), "abc…");
}

#[test]
fn ascii_case_and_trim_helpers() {
    assert!(str_eq_ignore_ascii_case("DeNsE", "dense"));
    assert!(!str_eq_ignore_ascii_case("Ế", "ế"));
    let t: String = trim_chars(&"\u{2003} a b\n".chars().collect::<Vec<_>>())
        .into_iter()
        .collect();
    assert_eq!(t, "a b");
}

#[test]
fn sanitize_twice_is_sanitize_once() {
    for raw in [
        "\u{1b}[2J\u{1b}[31mred\u{1b}[0m\r\n\tx",
        "\u{1b}[\u{1b}[31mz\u{1b}[12",
        "a\u{1b}7b\u{9b}c\u{1b}",
        "plain",
    ] {
        let once = sanitize_keep_sgr(raw);
        assert_eq!(sanitize_keep_sgr(&once), once);
    }
}

#[test]
fn wrapped_continuations_never_open_with_a_space() {
    let rows = wrap_sgr_row("aaaa    bbbbbbbbbbbb      cc   dddd", 8);
    for r in rows.iter().skip(1) {
        assert!(r.starts_with("  "));
        assert!(!r[2..].starts_with(' '), "gap at start: {r:?}");
    }
}

#[test]
fn wrapped_text_loses_no_visible_characters() {
    let row = "\u{1b}[32mone two\u{1b}[0m three four five six seven";
    let rows = wrap_sgr_row(row, 9);
    let visible: String = plain(&rows)
        .iter()
        .map(|r| r.trim_start().to_string())
        .collect::<Vec<_>>()
        .join("");
    let original: String = console::strip_ansi_codes(row).chars().filter(|c| *c != ' ').collect();
    let got: String = visible.chars().filter(|c| *c != ' ').collect();
    assert_eq!(got, original);
}

#[test]
fn span_texts_join_to_the_visible_text() {
    let b = base();
    let row = "x\u{1b}[1;33my\u{1b}[Hz\u{1b}[0mw";
    let joined: String = ansi_spans(row, b).into_iter().map(|(t, _)| t).collect();
    assert_eq!(joined, "xyzw");
}

#[test]
fn a_reset_inside_a_wrapped_line_is_kept() {
    let rows = wrap_sgr_row("\u{1b}[31mab\u{1b}[0mcd efghij", 8);
    assert_eq!(
        rows,
        vec!["\u{1b}[31mab\u{1b}[0mcd ".to_string(), "  efghij".to_string()]
    );
}

#[test]
fn sanitize_drops_sequences_with_control_inside() {
    assert_eq!(sanitize_keep_sgr("a\u{1b}[\r\u{1b}7mb"), "ab");
    assert_eq!(sanitize_keep_sgr("a\u{1b}[1;3mb"), "a\u{1b}[1;3mb");
    assert_eq!(sanitize_keep_sgr("a\u{1b}[?25mb"), "ab");
    let out = sanitize_keep_sgr("\u{1b}[\u{1b}[31mz\r\u{1b}[H");
    assert!(!out.contains('\r'));
    assert_eq!(out, "z");
}

#[test]
fn wrap_with_given_widths() {
    let row = "\u{1b}[31mab\u{1b}[0mcd efghij";
    let ones = vec![1usize; row.chars().count()];
    assert_eq!(
        wrap_sgr_row_measured(row, 8, 11, &ones),
        vec!["\u{1b}[31mab\u{1b}[0mcd ".to_string(), "  efghij".to_string()]
    );
    assert_eq!(wrap_sgr_row_measured(row, 8, 8, &ones), vec![row.to_string()]);
    assert_eq!(
        wrap_sgr_row_measured("一二三四五", 8, 10, &vec![2; 5]),
        vec!["一二三四".to_string(), "  五".to_string()]
    );
    assert_eq!(
        wrap_sgr_row_measured("一二三四五六七八九", 8, 18, &Vec::new()),
        vec!["一二三四五六七八".to_string(), "  九".to_string()]
    );
}

#[test]
fn clip_and_pad_with_given_widths() {
    assert_eq!(clip_to_measured("一二三", 4, 6, &vec![2, 2, 2]), "一…");
    assert_eq!(clip_to_measured("hello world", 6, 11, &Vec::new()), "hello…");
    assert_eq!(clip_to_measured("abc", 5, 3, &Vec::new()), "abc");
    assert_eq!(clip_to_measured("abc", 0, 3, &Vec::new()), "");
    assert_eq!(pad_measured("ab", 5, 2), "ab   ");
    assert_eq!(pad_measured("abc…", 4, 4), "abc…");
    assert_eq!(pad_measured("ab", 5, 9), "ab");
}

#[test]
fn capitalize_with_given_case_data() {
    assert_eq!(capitalize_first_with("read", true, "R"), "Read");
    assert_eq!(capitalize_first_with("read", false, "R"), "read");
    assert_eq!(capitalize_first_with("", true, "X"), "");
    assert_eq!(capitalize_first_with("ßx", true, "SS"), "SSx");
}
