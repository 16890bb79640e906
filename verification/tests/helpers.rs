use shed::emit::{indent, join_lines, substitute_shell};
use shed::text::{forward_slash, join_from, replace_text, same_text, trim_text};

#[test]
fn indent_adds_two_spaces_per_level() {
    assert_eq!(indent("x".to_string(), 0), "x");
    assert_eq!(indent("x".to_string(), 1), "  x");
    assert_eq!(indent("x".to_string(), 3), "      x");
}

#[test]
fn indent_levels_add_up() {
    let twice = indent(indent("fi".to_string(), 2), 1);
    assert_eq!(twice, indent("fi".to_string(), 3));
}

#[test]
fn shell_placeholder_is_replaced_everywhere_and_trimmed() {
    assert_eq!(
        substitute_shell("  init {shell} --cmd {shell}x ", "zsh"),
        "init zsh --cmd zshx"
    );
    assert_eq!(substitute_shell("", "bash"), "");
    assert_eq!(substitute_shell("{shel}", "bash"), "{shel}");
}

#[test]
fn text_helpers() {
    assert_eq!(forward_slash("a\\b\\c"), "a/b/c");
    assert_eq!(replace_text("aaa", "aa", "b"), "ba");
    assert_eq!(trim_text(" \t x y \r\n"), "x y");
    assert!(same_text("abc", "abc"));
    assert!(!same_text("abc", "abd"));
    let toks = vec!["a".to_string(), "b".to_string(), "c".to_string()];
    assert_eq!(join_from(&toks, 1, " "), "b c");
    assert_eq!(join_lines(&toks), "a\nb\nc");
}
