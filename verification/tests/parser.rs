use shed::ast::{Cond, Node, ParseError, PathDir};
use shed::parser::{resolve_path, strip_quotes, Parser};

fn parse(src: &str) -> Result<Vec<Node>, ParseError> {
    Parser::new(src, None).parse()
}

/// Parse `src`, assert exactly one node, return it.
fn parse_one(src: &str) -> Node {
    let mut nodes = parse(src).expect("parse failed");
    assert_eq!(nodes.len(), 1, "expected 1 node, got {}", nodes.len());
    nodes.remove(0)
}

// ── set ───────────────────────────────────────────────────────────────────

#[test]
fn set_parses_key_and_value() {
    match parse_one("set EDITOR nvim") {
        Node::SetEnv { key, val } => {
            assert_eq!(key, "EDITOR");
            assert_eq!(val, "nvim");
        }
        n => panic!("{:?}", n),
    }
}

#[test]
fn set_multiword_value() {
    match parse_one("set GREETING hello world") {
        Node::SetEnv { val, .. } => assert_eq!(val, "hello world"),
        n => panic!("{:?}", n),
    }
}

/// Outer double-quotes must be stripped; emitters will re-wrap the value.
#[test]
fn set_strips_outer_double_quotes() {
    match parse_one(r#"set EDITOR "nvim""#) {
        Node::SetEnv { val, .. } => assert_eq!(val, "nvim", "double-quotes not stripped"),
        n => panic!("{:?}", n),
    }
}

/// Outer single-quotes must also be stripped.
#[test]
fn set_strips_outer_single_quotes() {
    match parse_one("set EDITOR 'nvim'") {
        Node::SetEnv { val, .. } => assert_eq!(val, "nvim", "single-quotes not stripped"),
        n => panic!("{:?}", n),
    }
}

/// Partial / interior quotes must NOT be removed.
#[test]
fn set_partial_quotes_left_alone() {
    match parse_one(r#"set KEY foo"bar"#) {
        Node::SetEnv { val, .. } => assert_eq!(val, r#"foo"bar"#),
        n => panic!("{:?}", n),
    }
}

/// Multi-word value that is NOT wholly wrapped: no stripping.
#[test]
fn set_multiword_no_strip() {
    match parse_one(r#"set G "hello" world"#) {
        Node::SetEnv { val, .. } => assert_eq!(val, r#""hello" world"#),
        n => panic!("{:?}", n),
    }
}

#[test]
fn set_missing_key_is_error() {
    assert!(parse("set").is_err());
}

#[test]
fn set_missing_value_is_error() {
    assert!(parse("set ONLY").is_err());
}

// ── alias ─────────────────────────────────────────────────────────────────

#[test]
fn alias_parses_name_and_body() {
    match parse_one("alias gs git status") {
        Node::Alias { name, body } => {
            assert_eq!(name, "gs");
            assert_eq!(body, "git status");
        }
        n => panic!("{:?}", n),
    }
}

/// Double-quoted body must be stripped once so emitters do not double-wrap.
#[test]
fn alias_strips_outer_double_quotes() {
    match parse_one(r#"alias ll "ls -la""#) {
        Node::Alias { body, .. } => assert_eq!(body, "ls -la", "quotes not stripped"),
        n => panic!("{:?}", n),
    }
}

/// Single-quoted body must also be stripped.
#[test]
fn alias_strips_outer_single_quotes() {
    match parse_one("alias ll 'ls -la'") {
        Node::Alias { body, .. } => assert_eq!(body, "ls -la", "quotes not stripped"),
        n => panic!("{:?}", n),
    }
}

#[test]
fn alias_missing_name_is_error() {
    assert!(parse("alias").is_err());
}

#[test]
fn parser_alias_missing_body_is_error() {
    assert!(parse("alias gs").is_err());
}

// ── path+ / path- ─────────────────────────────────────────────────────────

#[test]
fn path_plus_prepend() {
    match parse_one("path+ /usr/local/bin") {
        Node::Path { direction, .. } => assert_eq!(direction, PathDir::Prepend),
        n => panic!("{:?}", n),
    }
}

#[test]
fn path_minus_append() {
    match parse_one("path- /opt/bin") {
        Node::Path { direction, .. } => assert_eq!(direction, PathDir::Append),
        n => panic!("{:?}", n),
    }
}

/// Quoted path token must have its quotes stripped before storage.
#[test]
fn path_strips_outer_quotes() {
    match parse_one(r#"path+ "/usr/local/bin""#) {
        Node::Path { dir, .. } => assert_eq!(dir, "/usr/local/bin"),
        n => panic!("{:?}", n),
    }
}

/// resolve_path normalises Windows backslashes to forward slashes.
#[test]
fn path_forward_slash_normalised() {
    let result = resolve_path("C:\\Users\\user\\.cargo\\bin", None);
    assert!(!result.contains('\\'), "backslash in: {}", result);
    assert!(result.contains('/'), "no forward-slash in: {}", result);
}

/// Forward slashes must appear in the stored dir on any OS.
#[test]
fn path_no_backslash_in_stored_dir() {
    match parse_one("path+ /usr/local/bin") {
        Node::Path { dir, .. } => assert!(!dir.contains('\\'), "backslash in dir: {}", dir),
        n => panic!("{:?}", n),
    }
}

#[test]
fn path_missing_dir_is_error() {
    assert!(parse("path+").is_err());
    assert!(parse("path-").is_err());
}

// ── call ──────────────────────────────────────────────────────────────────

#[test]
fn parser_call_no_args() {
    match parse_one("call myprog") {
        Node::Call { cmd, args } => {
            assert_eq!(cmd, "myprog");
            assert_eq!(args, "");
        }
        n => panic!("{:?}", n),
    }
}

#[test]
fn call_with_args() {
    match parse_one("call starship init {shell}") {
        Node::Call { cmd, args } => {
            assert_eq!(cmd, "starship");
            assert_eq!(args, "init {shell}");
        }
        n => panic!("{:?}", n),
    }
}

#[test]
fn call_missing_cmd_is_error() {
    assert!(parse("call").is_err());
}

// ── if / elif / else / end ────────────────────────────────────────────────

#[test]
fn if_elif_else_end_structure() {
    let src = "if os darwin\nset A 1\nelif os linux\nset A 2\nelse\nset A 3\nend";
    match parse_one(src) {
        Node::If(n) => {
            assert_eq!(n.body.len(), 1, "body");
            assert_eq!(n.elifs.len(), 1, "elifs");
            assert_eq!(n.else_.len(), 1, "else");
            assert!(matches!(&n.cond, Cond::Os(s) if s == "darwin"));
        }
        n => panic!("{:?}", n),
    }
}

#[test]
fn nested_if_parses() {
    let src = "if have cargo\nif os darwin\nset A 1\nend\nend";
    match parse_one(src) {
        Node::If(outer) => match &outer.body[0] {
            Node::If(_) => {}
            n => panic!("expected nested if: {:?}", n),
        },
        n => panic!("{:?}", n),
    }
}

#[test]
fn if_missing_cond_is_error() {
    assert!(parse("if\nend").is_err());
}

#[test]
fn if_unknown_cond_type_is_error() {
    assert!(parse("if foobar baz\nend").is_err());
}

#[test]
fn if_missing_cond_value_is_error() {
    assert!(parse("if have\nend").is_err());
}

#[test]
fn unterminated_if_reports_opening_line() {
    let err = parse("set A 1\nif have git\nset B 2").unwrap_err();
    assert_eq!(err.line, 2, "should point to the if line: {}", err.to_string());
}

// ── comments & blanks ─────────────────────────────────────────────────────

#[test]
fn comments_and_blanks_ignored() {
    let nodes = parse("# comment\n\nset A B # inline").unwrap();
    assert_eq!(nodes.len(), 1);
}

// ── error line numbers ────────────────────────────────────────────────────

#[test]
fn errors_carry_line_number() {
    let err = parse("set A 1\nsett FOO bar").unwrap_err();
    assert_eq!(err.line, 2, "wrong line: {}", err.to_string());
    assert!(err.msg.contains("sett"), "wrong msg: {}", err.to_string());
}

#[test]
fn error_display_includes_line_prefix() {
    let err = parse("bad keyword here").unwrap_err();
    assert!(err.to_string().starts_with("line "));
}

// ── compound condition precedence ─────────────────────────────────────────

#[test]
fn not_leaf() {
    match parse_one("if not have cargo\nend") {
        Node::If(n) => {
            assert!(matches!(&n.cond, Cond::Not(c) if matches!(c.as_ref(), Cond::Have(_))))
        }
        n => panic!("{:?}", n),
    }
}

#[test]
fn not_and_precedence() {
    match parse_one("if not have cargo and os linux\nend") {
        Node::If(n) => match &n.cond {
            Cond::And(l, r) => {
                assert!(matches!(l.as_ref(), Cond::Not(_)), "lhs should be Not");
                assert!(matches!(r.as_ref(), Cond::Os(_)), "rhs should be Os");
            }
            c => panic!("expected And, got {:?}", c),
        },
        n => panic!("{:?}", n),
    }
}

#[test]
fn or_not_precedence() {
    match parse_one("if have cargo or not shell fish\nend") {
        Node::If(n) => match &n.cond {
            Cond::Or(l, r) => {
                assert!(matches!(l.as_ref(), Cond::Have(_)), "lhs should be Have");
                assert!(matches!(r.as_ref(), Cond::Not(_)), "rhs should be Not");
            }
            c => panic!("expected Or, got {:?}", c),
        },
        n => panic!("{:?}", n),
    }
}

#[test]
fn and_or_precedence() {
    match parse_one("if have cargo and os linux or shell bash\nend") {
        Node::If(n) => match &n.cond {
            Cond::Or(l, r) => {
                assert!(matches!(l.as_ref(), Cond::And(_, _)), "lhs should be And");
                assert!(matches!(r.as_ref(), Cond::Shell(_)), "rhs should be Shell");
            }
            c => panic!("expected Or(And, Shell), got {:?}", c),
        },
        n => panic!("{:?}", n),
    }
}

#[test]
fn or_and_right_precedence() {
    match parse_one("if os linux or have cargo and shell bash\nend") {
        Node::If(n) => match &n.cond {
            Cond::Or(l, r) => {
                assert!(matches!(l.as_ref(), Cond::Os(_)), "lhs should be Os");
                assert!(matches!(r.as_ref(), Cond::And(_, _)), "rhs should be And");
            }
            c => panic!("expected Or(Os, And), got {:?}", c),
        },
        n => panic!("{:?}", n),
    }
}

#[test]
fn and_left_associative() {
    match parse_one("if have cargo and os linux and shell bash\nend") {
        Node::If(n) => match &n.cond {
            Cond::And(l, r) => {
                assert!(
                    matches!(l.as_ref(), Cond::And(_, _)),
                    "outer lhs should be And"
                );
                assert!(
                    matches!(r.as_ref(), Cond::Shell(_)),
                    "outer rhs should be Shell"
                );
            }
            c => panic!("expected And(And, Shell), got {:?}", c),
        },
        n => panic!("{:?}", n),
    }
}

// ── resolve_path tests ────────────────────────────────────────────────────

#[test]
fn resolve_path_absolute_unix_unchanged() {
    assert_eq!(resolve_path("/usr/local/bin", None), "/usr/local/bin");
}

#[test]
fn resolve_path_backslash_normalised() {
    let r = resolve_path("C:\\Users\\user\\.cargo\\bin", None);
    assert!(!r.contains('\\'), "backslash in: {}", r);
    assert!(r.contains('/'));
}

/// Shell variable tokens must be returned as-is (only delimiter fixed).
#[test]
fn resolve_path_dollar_home_left_intact() {
    let r = resolve_path("$HOME/.cargo/bin", None);
    assert_eq!(r, "$HOME/.cargo/bin", "variable was mutated: {}", r);
}

#[test]
fn resolve_path_tilde_left_intact() {
    let r = resolve_path("~/.cargo/bin", None);
    assert_eq!(r, "~/.cargo/bin", "tilde was mutated: {}", r);
}

#[test]
fn resolve_path_env_colon_left_intact() {
    let r = resolve_path("$env:USERPROFILE/.cargo/bin", None);
    assert_eq!(r, "$env:USERPROFILE/.cargo/bin");
}

/// Backslash in a variable path must still be normalised to forward slash.
#[test]
fn resolve_path_variable_backslash_normalised() {
    let r = resolve_path("$HOME\\.cargo\\bin", None);
    assert!(!r.contains('\\'), "backslash in: {}", r);
    assert_eq!(r, "$HOME/.cargo/bin");
}

// ── parse_leaf exists tests ───────────────────────────────────────────────

#[test]
fn parse_leaf_exists_absolute_unchanged() {
    match parse_one("if exists /usr/bin/git\nend") {
        Node::If(n) => match &n.cond {
            Cond::Exists(p) => assert_eq!(p, "/usr/bin/git"),
            c => panic!("expected Exists, got {:?}", c),
        },
        n => panic!("{:?}", n),
    }
}

/// `$HOME` in an exists path must be stored as-is, not corrupted by PathBuf.
#[test]
fn parse_leaf_exists_dollar_home_intact() {
    match parse_one("if exists $HOME/.cargo/bin\nend") {
        Node::If(n) => match &n.cond {
            Cond::Exists(p) => assert_eq!(p, "$HOME/.cargo/bin"),
            c => panic!("expected Exists, got {:?}", c),
        },
        n => panic!("{:?}", n),
    }
}

#[test]
fn parse_leaf_exists_tilde_intact() {
    match parse_one("if exists ~/go/bin\nend") {
        Node::If(n) => match &n.cond {
            Cond::Exists(p) => assert_eq!(p, "~/go/bin"),
            c => panic!("expected Exists, got {:?}", c),
        },
        n => panic!("{:?}", n),
    }
}

/// Backslash in a plain (non-variable) exists path must be normalised.
#[test]
fn parse_leaf_exists_normalises_backslash() {
    match parse_one("if exists C:\\tools\\bin\nend") {
        Node::If(n) => match &n.cond {
            Cond::Exists(p) => assert!(!p.contains('\\'), "backslash in: {}", p),
            c => panic!("expected Exists, got {:?}", c),
        },
        n => panic!("{:?}", n),
    }
}

// ── variable-path handling (the $HOME / ~ injection guard) ───────────────

/// $HOME in an exists condition is left intact — not treated as a relative path.
#[test]
fn dollar_home_in_exists_cond_is_intact() {
    match parse_one("if exists $HOME/.cargo/bin\nend") {
        Node::If(n) => {
            assert!(matches!(&n.cond, Cond::Exists(p) if p == "$HOME/.cargo/bin"));
        }
        n => panic!("{:?}", n),
    }
}

/// $HOME in a path+ directive is left intact.
#[test]
fn dollar_home_in_path_dir_is_intact() {
    match parse_one("path+ $HOME/.cargo/bin") {
        Node::Path { dir, .. } => {
            assert_eq!(dir, "$HOME/.cargo/bin");
            assert!(!dir.contains('\\'), "backslash in: {}", dir);
        }
        n => panic!("{:?}", n),
    }
}

/// $HOME in a set value is left intact.
#[test]
fn dollar_home_in_set_value_is_intact() {
    match parse_one("set CARGO_HOME $HOME/.cargo") {
        Node::SetEnv { val, .. } => assert_eq!(val, "$HOME/.cargo"),
        n => panic!("{:?}", n),
    }
}

/// ~ in a set value is left intact (shells do NOT expand ~ inside quotes).
#[test]
fn tilde_in_set_value_is_intact() {
    match parse_one("set STARSHIP_CONFIG ~/.config/starship.toml") {
        Node::SetEnv { val, .. } => assert_eq!(val, "~/.config/starship.toml"),
        n => panic!("{:?}", n),
    }
}

/// $env:USERPROFILE (pwsh style) in a path is left intact.
#[test]
fn pwsh_env_var_in_path_is_intact() {
    match parse_one("path+ $env:USERPROFILE/.cargo/bin") {
        Node::Path { dir, .. } => assert_eq!(dir, "$env:USERPROFILE/.cargo/bin"),
        n => panic!("{:?}", n),
    }
}

/// A backslash in a variable path is normalised to forward slash.
#[test]
fn dollar_home_backslash_normalised() {
    match parse_one("path+ $HOME\\.cargo\\bin") {
        Node::Path { dir, .. } => {
            assert!(!dir.contains('\\'), "backslash in: {}", dir);
            assert_eq!(dir, "$HOME/.cargo/bin");
        }
        n => panic!("{:?}", n),
    }
}

/// compound Or: two exists with different variable prefixes.
#[test]
fn compound_or_two_exists_variable_paths() {
    match parse_one("if exists $HOME/aqua.yml or exists ~/aqua.yaml\nend") {
        Node::If(n) => match &n.cond {
            Cond::Or(l, r) => {
                assert!(matches!(l.as_ref(), Cond::Exists(p) if p == "$HOME/aqua.yml"));
                assert!(matches!(r.as_ref(), Cond::Exists(p) if p == "~/aqua.yaml"));
            }
            c => panic!("expected Or, got {:?}", c),
        },
        n => panic!("{:?}", n),
    }
}

/// multiword set value with no quoting (fzf pattern).
#[test]
fn multiword_set_no_quotes() {
    match parse_one("set FZF_DEFAULT_COMMAND fd --type f --hidden --follow --exclude .git") {
        Node::SetEnv { key, val } => {
            assert_eq!(key, "FZF_DEFAULT_COMMAND");
            assert_eq!(val, "fd --type f --hidden --follow --exclude .git");
        }
        n => panic!("{:?}", n),
    }
}

/// alias with single-word body (tool replacement pattern).
#[test]
fn alias_tool_replacement() {
    match parse_one("alias grep rg") {
        Node::Alias { name, body } => {
            assert_eq!(name, "grep");
            assert_eq!(body, "rg");
        }
        n => panic!("{:?}", n),
    }
}

/// call with {shell} placeholder stored raw.
#[test]
fn call_shell_placeholder_stored_raw() {
    match parse_one("call starship init {shell}") {
        Node::Call { cmd, args } => {
            assert_eq!(cmd, "starship");
            assert_eq!(args, "init {shell}");
        }
        n => panic!("{:?}", n),
    }
}

/// os condition with alias body (windows explorer pattern).
#[test]
fn os_windows_alias() {
    match parse_one("if os windows\nalias e explorer.exe\nend") {
        Node::If(n) => {
            assert!(matches!(&n.cond, Cond::Os(s) if s == "windows"));
            match &n.body[0] {
                Node::Alias { name, body } => {
                    assert_eq!(name, "e");
                    assert_eq!(body, "explorer.exe");
                }
                x => panic!("{:?}", x),
            }
        }
        n => panic!("{:?}", n),
    }
}

/// Full cargo block: exists guard + path + two set nodes with $HOME values.
#[test]
fn cargo_block_structure() {
    let src = "if exists $HOME/.cargo/bin\npath+ $HOME/.cargo/bin\nset CARGO_HOME $HOME/.cargo\nset RUSTUP_HOME $HOME/.rustup\nend";
    match parse_one(src) {
        Node::If(n) => {
            assert!(matches!(&n.cond, Cond::Exists(p) if p == "$HOME/.cargo/bin"));
            assert_eq!(n.body.len(), 3);
            assert!(matches!(&n.body[0], Node::Path { dir, direction }
                if dir == "$HOME/.cargo/bin" && *direction == PathDir::Prepend));
            assert!(matches!(&n.body[1], Node::SetEnv { key, val }
                if key == "CARGO_HOME" && val == "$HOME/.cargo"));
            assert!(matches!(&n.body[2], Node::SetEnv { key, val }
                if key == "RUSTUP_HOME" && val == "$HOME/.rustup"));
        }
        n => panic!("{:?}", n),
    }
}

// ── strip_quotes unit tests ───────────────────────────────────────────────

#[test]
fn strip_quotes_removes_double() {
    assert_eq!(strip_quotes(r#""hello""#).as_ref(), "hello");
}

#[test]
fn strip_quotes_removes_single() {
    assert_eq!(strip_quotes("'hello'").as_ref(), "hello");
}

#[test]
fn strip_quotes_leaves_unquoted() {
    assert_eq!(strip_quotes("hello").as_ref(), "hello");
}

#[test]
fn strip_quotes_leaves_partial() {
    assert_eq!(strip_quotes(r#"foo"bar"#).as_ref(), r#"foo"bar"#);
}

#[test]
fn strip_quotes_leaves_mismatched() {
    assert_eq!(strip_quotes(r#""hello'"#).as_ref(), r#""hello'"#);
}

#[test]
fn strip_quotes_too_short() {
    assert_eq!(strip_quotes("\"").as_ref(), "\"");
}

// ── further cases ────────────────────────────────────────────────────────────

#[test]
fn parser_exact_messages() {
    let e = parse("set").unwrap_err();
    assert_eq!((e.line, e.msg.as_str()), (1, "usage: set KEY VALUE"));
    let e = parse("\n\npath- ").unwrap_err();
    assert_eq!((e.line, e.msg.as_str()), (3, "usage: path- DIR"));
    let e = parse("call").unwrap_err();
    assert_eq!(e.msg, "usage: call CMD [ARGS]");
    let e = parse("alias x").unwrap_err();
    assert_eq!(e.msg, "usage: alias NAME BODY");
    let e = parse("if").unwrap_err();
    assert_eq!(e.msg, "usage: if <cond-type> <value>");
    let e = parse("sett A b").unwrap_err();
    assert_eq!(e.msg, "unknown keyword \"sett\"");
    let e = parse("if have git\nfoo\nend").unwrap_err();
    assert_eq!((e.line, e.msg.as_str()), (2, "unknown keyword \"foo\""));
}

#[test]
fn parser_if_block_messages() {
    let e = parse("if have git\nelif\nend").unwrap_err();
    assert_eq!((e.line, e.msg.as_str()), (2, "elif requires a condition"));
    let e = parse("# top\nif have git\nset A 1").unwrap_err();
    assert_eq!(
        (e.line, e.msg.as_str()),
        (2, "unterminated if-block (missing 'end')")
    );
    let e = parse("if foo bar\nend").unwrap_err();
    assert_eq!(
        e.msg,
        "unknown condition \"foo\" -- use: have | exists | env | os | shell"
    );
    let e = parse("if have\nend").unwrap_err();
    assert_eq!(e.msg, "have requires a value");
    let e = parse("if not\nend").unwrap_err();
    assert_eq!(e.msg, "'not' requires a condition");
}

#[test]
fn parser_stray_block_keyword_at_top_level() {
    let e = parse("end").unwrap_err();
    assert_eq!((e.line, e.msg.as_str()), (1, "unknown keyword \"end\""));
}

#[test]
fn parser_error_display_forms() {
    let e = ParseError::at(42, "unknown keyword \"sett\"".to_string());
    assert_eq!(e.to_string(), "line 42: unknown keyword \"sett\"");
    let e = ParseError::at(0, "unexpected end of input".to_string());
    assert_eq!(e.to_string(), "unexpected end of input");
}

#[test]
fn parser_quoted_keyword_in_message_is_escaped() {
    let e = parse("if have git\nfi\"x\nend").unwrap_err();
    assert_eq!((e.line, e.msg.as_str()), (2, "unknown keyword \"fi\\\"x\""));
    let e = parse("if have git\nelse\nelif have x\nend").unwrap_err();
    assert_eq!((e.line, e.msg.as_str()), (3, "unknown keyword \"elif\""));
}

#[test]
fn parser_elif_chain_and_else_contents() {
    let src = "if os darwin\nset A 1\nelif os linux\nset A 2\nelif have x\nset A 3\nelse\nset A 4\nend";
    match parse_one(src) {
        Node::If(n) => {
            assert_eq!(n.elifs.len(), 2);
            assert_eq!(n.elifs[0].0, Cond::Os("linux".into()));
            assert_eq!(n.elifs[1].0, Cond::Have("x".into()));
            assert_eq!(
                n.else_,
                vec![Node::SetEnv {
                    key: "A".into(),
                    val: "4".into()
                }]
            );
        }
        n => panic!("{:?}", n),
    }
}

#[test]
fn parser_tokens_after_leaf_value_are_ignored() {
    match parse_one("if have git extra words\nend") {
        Node::If(n) => assert_eq!(n.cond, Cond::Have("git".into())),
        n => panic!("{:?}", n),
    }
}

#[test]
fn parser_relative_path_is_joined_onto_base() {
    let nodes = Parser::new("path+ bin", Some("/home/you/dot".to_string()))
        .parse()
        .unwrap();
    assert_eq!(
        nodes,
        vec![Node::Path {
            dir: "/home/you/dot/bin".into(),
            direction: PathDir::Prepend
        }]
    );
}

#[test]
fn parser_absolute_and_variable_paths_ignore_base() {
    let nodes = Parser::new(
        "path+ /usr/local/bin\npath- $HOME/bin",
        Some("/home/you/dot".to_string()),
    )
    .parse()
    .unwrap();
    assert_eq!(
        nodes,
        vec![
            Node::Path {
                dir: "/usr/local/bin".into(),
                direction: PathDir::Prepend
            },
            Node::Path {
                dir: "$HOME/bin".into(),
                direction: PathDir::Append
            }
        ]
    );
}

#[test]
fn parser_relative_path_kept_without_base() {
    assert_eq!(resolve_path("bin\\tools", None), "bin/tools");
    assert_eq!(resolve_path("bin", Some("/base")), "/base/bin");
}

#[test]
fn parser_crlf_and_tabs_are_white_space() {
    let nodes = parse("set\tA  b\r\nalias ll\tls -la\r\n").unwrap();
    assert_eq!(
        nodes,
        vec![
            Node::SetEnv {
                key: "A".into(),
                val: "b".into()
            },
            Node::Alias {
                name: "ll".into(),
                body: "ls -la".into()
            }
        ]
    );
}

#[test]
fn parser_join_rules_with_a_base_directory() {
    let base = Some("/home/you/dot");
    assert_eq!(resolve_path("/usr/local/bin", base), "/usr/local/bin");
    assert_eq!(resolve_path("sub/bin", base), "/home/you/dot/sub/bin");
    assert_eq!(resolve_path("sub\\bin", base), "/home/you/dot/sub/bin");
    assert_eq!(resolve_path("bin", Some("/home/you/dot/")), "/home/you/dot/bin");
    assert_eq!(resolve_path("$HOME/bin", base), "$HOME/bin");
}

#[test]
fn parser_second_parse_is_empty() {
    let mut p = Parser::new("set A 1\nalias g git", None);
    assert_eq!(p.parse().unwrap().len(), 2);
    assert_eq!(p.parse().unwrap(), vec![]);
}

#[test]
fn parser_join_onto_drive_and_unc_bases() {
    assert_eq!(resolve_path("bin", Some("C:\\Users\\you\\dot")), "C:/Users/you/dot/bin");
    // A base ending in `\` is a separator only on Windows; on this host a `/` is added.
    assert_eq!(resolve_path("sub/bin", Some("C:\\Users\\you\\dot\\")), "C:/Users/you/dot//sub/bin");
    assert_eq!(resolve_path("sub/bin", Some("C:/Users/you/dot/")), "C:/Users/you/dot/sub/bin");
    assert_eq!(resolve_path("bin", Some("\\\\srv\\share")), "//srv/share/bin");
    let nodes = Parser::new("path- tools", Some("C:\\Users\\you\\dot".to_string()))
        .parse()
        .unwrap();
    assert_eq!(
        nodes,
        vec![Node::Path {
            dir: "C:/Users/you/dot/tools".into(),
            direction: PathDir::Append
        }]
    );
}
