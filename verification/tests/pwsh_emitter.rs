use shed::ast::{Cond, IfNode, Node, PathDir};
use shed::emit::pwsh::PwshEmitter;
use shed::emit::Emitter;

fn render(nodes: &[Node]) -> String {
    PwshEmitter.render(nodes)
}

#[test]
fn set_basic() {
    assert_eq!(
        render(&[Node::SetEnv {
            key: "EDITOR".into(),
            val: "nvim".into()
        }]),
        "$env:EDITOR = \"nvim\""
    );
}

#[test]
fn set_no_double_wrap() {
    let out = render(&[Node::SetEnv {
        key: "FOO".into(),
        val: "bar".into(),
    }]);
    assert!(!out.contains("\"\""), "double-quote in output: {}", out);
    assert_eq!(out, "$env:FOO = \"bar\"");
}

#[test]
fn pwsh_path_prepend() {
    let out = render(&[Node::Path {
        dir: "C:/tools".into(),
        direction: PathDir::Prepend,
    }]);
    assert!(
        out.contains("$env:PATH = \"C:/tools;$env:PATH\""),
        "add: {}",
        out
    );
    assert!(out.contains("-notlike"), "guard: {}", out);
}

#[test]
fn pwsh_path_append() {
    let out = render(&[Node::Path {
        dir: "C:/opt".into(),
        direction: PathDir::Append,
    }]);
    assert!(
        out.contains("$env:PATH = \"$env:PATH;C:/opt\""),
        "add: {}",
        out
    );
    assert!(out.contains("-notlike"), "guard: {}", out);
}

#[test]
fn path_forward_slash_passed_through() {
    let out = render(&[Node::Path {
        dir: "/usr/local/bin".into(),
        direction: PathDir::Prepend,
    }]);
    assert!(out.contains("/usr/local/bin"), "dir missing: {}", out);
}

#[test]
fn pwsh_call_no_args() {
    assert_eq!(
        render(&[Node::Call {
            cmd: "myprog".into(),
            args: String::new()
        }]),
        "Invoke-Expression (& myprog)"
    );
}

#[test]
fn pwsh_call_with_shell_placeholder() {
    assert_eq!(
        render(&[Node::Call {
            cmd: "starship".into(),
            args: "init {shell}".into()
        }]),
        "Invoke-Expression (& starship init powershell)"
    );
}

#[test]
fn call_with_args_no_placeholder() {
    assert_eq!(
        render(&[Node::Call {
            cmd: "zoxide".into(),
            args: "init nushell".into()
        }]),
        "Invoke-Expression (& zoxide init nushell)"
    );
}

#[test]
fn alias_uses_scope_global() {
    let out = render(&[Node::Alias {
        name: "ll".into(),
        body: "ls -la".into(),
    }]);
    assert!(
        out.contains("-Scope Global"),
        "missing -Scope Global: {}",
        out
    );
    assert!(out.contains("-Name ll"), "missing -Name: {}", out);
    assert!(out.contains("-Value ls -la"), "missing -Value: {}", out);
    assert_eq!(out, "Set-Alias -Scope Global -Name ll -Value ls -la");
}

#[test]
fn alias_named_params_multiword_body() {
    assert_eq!(
        render(&[Node::Alias {
            name: "gs".into(),
            body: "git status".into()
        }]),
        "Set-Alias -Scope Global -Name gs -Value git status"
    );
}

#[test]
fn alias_exact_output_single_word() {
    assert_eq!(
        render(&[Node::Alias {
            name: "np".into(),
            body: "notepad".into()
        }]),
        "Set-Alias -Scope Global -Name np -Value notepad"
    );
}

#[test]
fn pwsh_cond_have() {
    assert_eq!(
        PwshEmitter.cond(&Cond::Have("git".into())),
        "Get-Command git -ErrorAction SilentlyContinue"
    );
}

#[test]
fn pwsh_cond_exists() {
    assert_eq!(
        PwshEmitter.cond(&Cond::Exists("C:/Users/user/.cargo/bin".into())),
        "Test-Path \"C:/Users/user/.cargo/bin\""
    );
}

#[test]
fn pwsh_cond_env() {
    assert_eq!(
        PwshEmitter.cond(&Cond::Env("CARGO_HOME".into())),
        "(Test-Path env:CARGO_HOME)"
    );
}

#[test]
fn pwsh_cond_os_darwin() {
    assert_eq!(PwshEmitter.cond(&Cond::Os("darwin".into())), "$IsMacOS");
}

#[test]
fn pwsh_cond_os_linux() {
    assert_eq!(PwshEmitter.cond(&Cond::Os("linux".into())), "$IsLinux");
}

#[test]
fn pwsh_cond_os_windows() {
    assert_eq!(PwshEmitter.cond(&Cond::Os("windows".into())), "$IsWindows");
}

#[test]
fn cond_shell_pwsh_is_true() {
    assert_eq!(PwshEmitter.cond(&Cond::Shell("pwsh".into())), "$true");
}

#[test]
fn pwsh_cond_shell_other_is_false() {
    assert_eq!(PwshEmitter.cond(&Cond::Shell("bash".into())), "$false");
}

#[test]
fn pwsh_cond_not() {
    assert_eq!(
        PwshEmitter.cond(&Cond::Not(Box::new(Cond::Have("git".into())))),
        "(-not (Get-Command git -ErrorAction SilentlyContinue))"
    );
}

#[test]
fn pwsh_cond_and() {
    assert_eq!(
        PwshEmitter.cond(&Cond::And(
            Box::new(Cond::Have("cargo".into())),
            Box::new(Cond::Os("linux".into())),
        )),
        "(Get-Command cargo -ErrorAction SilentlyContinue) -and ($IsLinux)"
    );
}

#[test]
fn pwsh_cond_or() {
    assert_eq!(
        PwshEmitter.cond(&Cond::Or(
            Box::new(Cond::Os("darwin".into())),
            Box::new(Cond::Os("linux".into())),
        )),
        "($IsMacOS) -or ($IsLinux)"
    );
}

#[test]
fn if_braces() {
    let node = Node::If(IfNode {
        cond: Cond::Have("git".into()),
        body: vec![Node::SetEnv {
            key: "X".into(),
            val: "1".into(),
        }],
        elifs: vec![],
        else_: vec![],
    });
    let out = render(&[node]);
    assert!(out.contains("if (Get-Command git"), "missing if: {}", out);
    assert!(out.contains("$env:X = \"1\""), "missing body: {}", out);
    assert!(out.ends_with('}'), "missing close brace: {}", out);
}

#[test]
fn if_elif_else_braces() {
    let node = Node::If(IfNode {
        cond: Cond::Os("darwin".into()),
        body: vec![Node::SetEnv {
            key: "A".into(),
            val: "1".into(),
        }],
        elifs: vec![(
            Cond::Os("linux".into()),
            vec![Node::SetEnv {
                key: "A".into(),
                val: "2".into(),
            }],
        )],
        else_: vec![Node::SetEnv {
            key: "A".into(),
            val: "3".into(),
        }],
    });
    let out = render(&[node]);
    assert!(out.contains("elseif"), "missing elseif: {}", out);
    assert!(out.contains("} else {"), "missing else: {}", out);
}

#[test]
fn pwsh_indent_depth() {
    let node = Node::If(IfNode {
        cond: Cond::Have("cargo".into()),
        body: vec![Node::SetEnv {
            key: "Y".into(),
            val: "z".into(),
        }],
        elifs: vec![],
        else_: vec![],
    });
    let out = render(&[node]);
    assert!(
        out.lines().any(|l| l.starts_with("  $env:")),
        "body not indented: {}",
        out
    );
}

// ── further cases ────────────────────────────────────────────────────────────

#[test]
fn pwsh_exact_path_guard() {
    let out = render(&[Node::Path {
        dir: "C:/tools".into(),
        direction: PathDir::Prepend,
    }]);
    assert_eq!(
        out,
        "if ($env:PATH -notlike '*C:/tools*') { $env:PATH = \"C:/tools;$env:PATH\" }"
    );
}

#[test]
fn pwsh_exact_if_elif_else_layout() {
    let node = Node::If(IfNode {
        cond: Cond::Os("darwin".into()),
        body: vec![Node::SetEnv {
            key: "A".into(),
            val: "1".into(),
        }],
        elifs: vec![(
            Cond::Os("linux".into()),
            vec![Node::SetEnv {
                key: "A".into(),
                val: "2".into(),
            }],
        )],
        else_: vec![Node::SetEnv {
            key: "A".into(),
            val: "3".into(),
        }],
    });
    assert_eq!(
        render(&[node]),
        "if ($IsMacOS) {\n  $env:A = \"1\"\n} elseif ($IsLinux) {\n  $env:A = \"2\"\n} else {\n  $env:A = \"3\"\n}"
    );
}

#[test]
fn pwsh_name_differs_from_call_word() {
    assert_eq!(PwshEmitter.name(), "pwsh");
    assert_eq!(PwshEmitter.resolve_call_args("init {shell}"), "init powershell");
}
