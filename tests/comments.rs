use dot_delta::strip_comments;

#[test]
fn strip_full_line_comment() {
    assert_eq!(strip_comments("a\n// note\nb"), "a\n\nb");
}

#[test]
fn strip_indented_comment_line() {
    assert_eq!(strip_comments("   \t// note\nx -> y"), "\nx -> y");
}

#[test]
fn strip_inline_comment() {
    assert_eq!(strip_comments("a -> b // comment"), "a -> b ");
}

#[test]
fn strip_keeps_text_without_comments() {
    assert_eq!(strip_comments("digraph { a -> b; }"), "digraph { a -> b; }");
}

#[test]
fn strip_first_of_several_markers() {
    assert_eq!(strip_comments("a // b // c"), "a ");
}

#[test]
fn strip_inside_quotes_too() {
    assert_eq!(strip_comments("a [label=\"http://x\"]"), "a [label=\"http:");
}

#[test]
fn strip_crlf_and_final_newline() {
    assert_eq!(strip_comments("a\r\nb\r\n"), "a\nb");
}

#[test]
fn strip_empty_text() {
    assert_eq!(strip_comments(""), "");
    assert_eq!(strip_comments("\n"), "");
}

#[test]
fn strip_single_slash_is_kept() {
    assert_eq!(strip_comments("a / b"), "a / b");
}

#[test]
fn strip_blank_line_without_comment_is_kept() {
    assert_eq!(strip_comments("  \nx"), "  \nx");
}

#[test]
fn strip_twice_drops_only_a_final_empty_line() {
    let once = strip_comments("a // x\n// y\nb //\n//\n");
    assert_eq!(once, "a \n\nb \n");
    assert_eq!(strip_comments(&once), "a \n\nb ");
    let plain = strip_comments("x -> y // z");
    assert_eq!(strip_comments(&plain), plain);
}
