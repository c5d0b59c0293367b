use markplus::{check_regex, create_link, itemize_text, toggle_checklist};

#[test]
fn toggle_unchecked_to_checked() {
    assert_eq!(toggle_checklist("- [ ] task"), "- [X] task");
}

#[test]
fn toggle_checked_to_unchecked() {
    assert_eq!(toggle_checklist("- [x] done"), "- [ ] done");
    assert_eq!(toggle_checklist("- [X] done"), "- [ ] done");
}

#[test]
fn toggle_twice_restores_unchecked_line() {
    let line = "  - [ ] write tests";
    assert_eq!(toggle_checklist(&toggle_checklist(line)), line);
}

#[test]
fn toggle_only_first_marker() {
    assert_eq!(toggle_checklist("- [ ] a - [ ] b"), "- [X] a - [ ] b");
}

#[test]
fn toggle_without_marker_is_unchanged() {
    assert_eq!(toggle_checklist("- [y] no"), "- [y] no");
    assert_eq!(toggle_checklist(""), "");
}

#[test]
fn toggle_after_multibyte_prefix() {
    assert_eq!(toggle_checklist("é - [ ] ü"), "é - [X] ü");
}

#[test]
fn detects_checkbox_markers() {
    assert!(check_regex("- [ ] a"));
    assert!(check_regex("x - [x] a"));
    assert!(check_regex("- [X]"));
    assert!(!check_regex("- [] a"));
    assert!(!check_regex("-[ ] a"));
}

#[test]
fn link_from_trimmed_selection() {
    assert_eq!(create_link("  hello world \n"), "[hello world]()");
    assert_eq!(create_link(""), "[]()");
}

#[test]
fn itemize_nests_by_indentation() {
    assert_eq!(itemize_text("a\n  b\n    c"), "- a\n  - b\n    - c");
}

#[test]
fn itemize_skips_blank_lines() {
    assert_eq!(itemize_text("a\n\n   \nb\n"), "- a\n- b");
    assert_eq!(itemize_text(""), "");
}

#[test]
fn itemize_rounds_odd_indentation_down() {
    assert_eq!(itemize_text("   x  "), "  - x");
}
