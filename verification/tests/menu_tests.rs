use marginal::{menu_state_for_mode, str_contains, str_lex_le};

#[test]
fn code_mode_enables_the_formatter_and_nothing_else() {
    let st = menu_state_for_mode("code");
    assert!(st.format_document_enabled);
    assert!(!st.bold_enabled);
    assert!(!st.italic_enabled);
    assert!(!st.heading_1_enabled);
    assert!(!st.heading_2_enabled);
    assert!(!st.heading_3_enabled);
    assert!(!st.heading_4_enabled);
    assert!(!st.heading_5_enabled);
    assert!(!st.insert_table_enabled);
    assert_eq!(st.toggle_view_label, "View document");
}

#[test]
fn mode_mentioning_code_counts_as_code_mode() {
    let st = menu_state_for_mode("split-code-view");
    assert!(st.format_document_enabled);
    assert!(!st.bold_enabled);
    assert_eq!(st.toggle_view_label, "View document");
}

#[test]
fn document_mode_enables_the_markdown_entries() {
    let st = menu_state_for_mode("document");
    assert!(!st.format_document_enabled);
    assert!(st.bold_enabled);
    assert!(st.italic_enabled);
    assert!(st.heading_1_enabled);
    assert!(st.heading_2_enabled);
    assert!(st.heading_3_enabled);
    assert!(st.heading_4_enabled);
    assert!(st.heading_5_enabled);
    assert!(st.insert_table_enabled);
    assert_eq!(st.toggle_view_label, "View code");
}

#[test]
fn empty_mode_is_not_a_code_mode() {
    let st = menu_state_for_mode("");
    assert!(!st.format_document_enabled);
    assert_eq!(st.toggle_view_label, "View code");
}

#[test]
fn str_contains_finds_substrings() {
    assert!(str_contains("code", "code"));
    assert!(str_contains("encoded", "code"));
    assert!(str_contains("anything", ""));
    assert!(!str_contains("", "code"));
    assert!(!str_contains("cod", "code"));
    assert!(!str_contains("CODE", "code"));
    assert!(!str_contains("c-o-d-e", "code"));
}

#[test]
fn str_lex_le_orders_by_code_point() {
    assert!(str_lex_le("abc", "abd"));
    assert!(!str_lex_le("abd", "abc"));
    assert!(str_lex_le("ab", "abc"));
    assert!(!str_lex_le("abc", "ab"));
    assert!(str_lex_le("", ""));
    assert!(str_lex_le("", "a"));
    assert!(str_lex_le("abc", "abc"));
    // upper-case letters come before lower-case ones by code point
    assert!(str_lex_le("Zoo", "apple"));
}
