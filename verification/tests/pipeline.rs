//! Source text to emitted script: parse, prune and render together.
//!
//! The compile target's host operating system is passed explicitly; these
//! scenarios are written for a Linux host unless a test says otherwise.

use shed::emit::bash::BashEmitter;
use shed::emit::fish::FishEmitter;
use shed::emit::pwsh::PwshEmitter;
use shed::emit::{emit, tree_size, Emitter};
use shed::parser::Parser;
use shed::prune::{prune_nodes, HostOs};

fn bash_on(src: &str, host: HostOs) -> String {
    let ast = prune_nodes(Parser::new(src, None).parse().unwrap(), "bash", host);
    BashEmitter::new("bash").render(&ast)
}
fn fish_on(src: &str, host: HostOs) -> String {
    let ast = prune_nodes(Parser::new(src, None).parse().unwrap(), "fish", host);
    FishEmitter.render(&ast)
}
fn pwsh_on(src: &str, host: HostOs) -> String {
    let ast = prune_nodes(Parser::new(src, None).parse().unwrap(), "pwsh", host);
    PwshEmitter.render(&ast)
}
fn bash(src: &str) -> String {
    bash_on(src, HostOs::Linux)
}
fn zsh(src: &str) -> String {
    let ast = prune_nodes(Parser::new(src, None).parse().unwrap(), "zsh", HostOs::Linux);
    BashEmitter::new("zsh").render(&ast)
}
fn fish(src: &str) -> String {
    fish_on(src, HostOs::Linux)
}
fn pwsh(src: &str) -> String {
    pwsh_on(src, HostOs::Linux)
}

#[test]
fn set_all_shells() {
    assert_eq!(bash("set EDITOR nvim"), "export EDITOR=\"nvim\"");
    assert_eq!(fish("set EDITOR nvim"), "set -gx EDITOR \"nvim\"");
    assert_eq!(pwsh("set EDITOR nvim"), "$env:EDITOR = \"nvim\"");
}

#[test]
fn call_shell_placeholder() {
    assert_eq!(
        bash("call starship init {shell}"),
        "eval \"$(starship init bash)\""
    );
    assert_eq!(
        zsh("call starship init {shell}"),
        "eval \"$(starship init zsh)\""
    );
    assert_eq!(
        fish("call starship init {shell}"),
        "starship init fish | source"
    );
    assert_eq!(
        pwsh("call starship init {shell}"),
        "Invoke-Expression (& starship init powershell)"
    );
}

#[test]
fn if_have_all_shells() {
    let src = "if have cargo\npath+ $HOME/.cargo/bin\nend";

    let b = bash(src);
    assert!(b.contains("command -v cargo"), "bash: {}", b);
    assert!(b.contains("export PATH"), "bash: {}", b);
    assert!(b.contains("fi"), "bash: {}", b);

    let f = fish(src);
    assert!(f.contains("type -q cargo"), "fish: {}", f);
    assert!(f.contains("fish_add_path"), "fish: {}", f);
    assert!(f.contains("end"), "fish: {}", f);

    let p = pwsh("if have cargo\npath+ C:\\cargo\\bin\nend");
    assert!(p.contains("Get-Command cargo"), "pwsh: {}", p);
    assert!(p.contains("$env:PATH"), "pwsh: {}", p);
}

#[test]
fn if_os_with_elif() {
    let src = "if os darwin\nset BROWSER open\nelif os linux\nset BROWSER xdg-open\nend";

    let b = bash(src);
    assert!(
        b.contains("export BROWSER=\"xdg-open\""),
        "bash linux: {}",
        b
    );
    assert!(!b.contains("if "), "bash linux: unexpected if: {}", b);

    let b = bash_on(src, HostOs::Darwin);
    assert!(b.contains("export BROWSER=\"open\""), "bash macos: {}", b);
    assert!(!b.contains("if "), "bash macos: unexpected if: {}", b);

    let b = bash_on(src, HostOs::Other);
    assert!(b.contains("Darwin"), "bash: {}", b);
    assert!(b.contains("Linux"), "bash: {}", b);
    assert!(b.contains("elif"), "bash: {}", b);
    assert!(b.contains("fi"), "bash: {}", b);

    let f = fish("if os darwin\nset BROWSER open\nend");
    assert!(
        !f.contains("BROWSER"),
        "fish non-mac: darwin block should be dropped: {}",
        f
    );
    let f = fish_on("if os darwin\nset BROWSER open\nend", HostOs::Darwin);
    assert!(f.contains("set -gx BROWSER"), "fish macos: {}", f);

    let p = pwsh("if os windows\nset SHELL_NAME pwsh\nend");
    assert!(
        !p.contains("SHELL_NAME"),
        "pwsh non-windows: windows block should be dropped: {}",
        p
    );
    let p = pwsh_on("if os windows\nset SHELL_NAME pwsh\nend", HostOs::Windows);
    assert!(p.contains("$env:SHELL_NAME"), "pwsh windows: {}", p);
}

#[test]
fn if_shell_self_and_cross() {
    let b = bash("if shell bash\nset X 1\nend");
    assert!(
        b.contains("export X=\""),
        "bash self: body not inlined: {}",
        b
    );
    assert!(
        !b.contains("if "),
        "bash self: unexpected if-wrapper: {}",
        b
    );

    let f = fish("if shell fish\nset X 1\nend");
    assert!(
        f.contains("set -gx X"),
        "fish self: body not inlined: {}",
        f
    );
    assert!(
        !f.contains("if "),
        "fish self: unexpected if-wrapper: {}",
        f
    );

    let p = pwsh("if shell pwsh\nset X 1\nend");
    assert!(p.contains("$env:X"), "pwsh self: body not inlined: {}", p);
    assert!(
        !p.contains("if ("),
        "pwsh self: unexpected if-wrapper: {}",
        p
    );

    let cross = bash("if shell fish\nset X 1\nend");
    assert!(
        cross.is_empty(),
        "bash cross: expected empty, got: {}",
        cross
    );
}

#[test]
fn if_else_structure() {
    let src = "if have git\nset A found\nelse\nset A absent\nend";
    let b = bash(src);
    assert!(b.contains("else"), "bash: {}", b);
    assert!(b.contains("fi"), "bash: {}", b);
    let f = fish(src);
    assert!(f.contains("else"), "fish: {}", f);
    assert!(f.contains("end"), "fish: {}", f);
}

#[test]
fn readme_example() {
    let src = "\
set EDITOR nvim
if os darwin
  set BROWSER open
elif os linux
  set BROWSER xdg-open
end
if have cargo
  path+ $HOME/.cargo/bin
end
if have starship
  call starship init {shell}
end";

    let b = bash(src);
    assert!(b.contains("export EDITOR=\"nvim\""), "EDITOR: {}", b);
    assert!(b.contains("command -v cargo"), "cargo: {}", b);
    assert!(
        b.contains("eval \"$(starship init bash)\""),
        "starship: {}",
        b
    );
    assert!(
        b.contains("export BROWSER=\"xdg-open\""),
        "bash linux BROWSER: {}",
        b
    );
    let b = bash_on(src, HostOs::Darwin);
    assert!(
        b.contains("export BROWSER=\"open\""),
        "bash macos BROWSER: {}",
        b
    );

    let f = fish(src);
    assert!(f.contains("set -gx EDITOR"), "EDITOR: {}", f);
    assert!(f.contains("type -q cargo"), "cargo: {}", f);
    assert!(f.contains("starship init fish"), "starship: {}", f);
    assert!(f.contains("set -gx BROWSER"), "fish linux BROWSER: {}", f);
    let f = fish_on(src, HostOs::Darwin);
    assert!(f.contains("set -gx BROWSER"), "fish macos BROWSER: {}", f);

    let p = pwsh(src);
    assert!(p.contains("$env:EDITOR = \"nvim\""), "EDITOR: {}", p);
    assert!(p.contains("Get-Command cargo"), "cargo: {}", p);
    assert!(
        p.contains("Invoke-Expression (& starship init powershell)"),
        "starship: {}",
        p
    );
    assert!(
        p.contains("$env:BROWSER = \"xdg-open\""),
        "pwsh linux BROWSER: {}",
        p
    );
    let p = pwsh_on(src, HostOs::Darwin);
    assert!(
        p.contains("$env:BROWSER = \"open\""),
        "pwsh macos BROWSER: {}",
        p
    );
}

#[test]
fn tests_alias_missing_body_is_error() {
    assert!(Parser::new("alias ll", None).parse().is_err());
    assert!(Parser::new("alias", None).parse().is_err());
}

#[test]
fn parse_errors_carry_line_and_context() {
    let err = Parser::new("set A 1\nsett FOO bar", None).parse().unwrap_err();
    assert_eq!(err.line, 2, "wrong line: {}", err.to_string());
    assert!(err.msg.contains("sett"), "wrong msg: {}", err.to_string());

    let err = Parser::new("set A 1\nset B 2\nset C", None).parse().unwrap_err();
    assert_eq!(err.line, 3, "wrong line: {}", err.to_string());

    let err = Parser::new("set A 1\nif have git\nset B 2", None)
        .parse()
        .unwrap_err();
    assert_eq!(err.line, 2, "should point to if line: {}", err.to_string());
}

#[test]
fn if_not_have_all_shells() {
    let src = "if not have cargo\nset CARGO_ABSENT 1\nend";

    let b = bash(src);
    assert!(b.contains("! command -v cargo"), "bash: {}", b);
    assert!(b.contains("fi"), "bash: {}", b);

    let f = fish(src);
    assert!(f.contains("not type -q cargo"), "fish: {}", f);
    assert!(f.contains("end"), "fish: {}", f);

    let p = pwsh(src);
    assert!(p.contains("-not (Get-Command cargo"), "pwsh: {}", p);
}

#[test]
fn if_and_condition_all_shells() {
    let src = "if have cargo and os linux\npath+ $HOME/.cargo/bin\nend";

    let b = bash(src);
    assert!(b.contains("command -v cargo"), "bash and lhs: {}", b);
    let if_line = b.lines().find(|l| l.trim_start().starts_with("if ")).unwrap_or("");
    assert!(!if_line.contains("&&"), "bash linux: unexpected && in if-line: {}", if_line);
    assert!(!b.contains("Linux"), "bash linux: unexpected Linux string: {}", b);

    let b = bash_on(src, HostOs::Darwin);
    assert!(
        b.is_empty() || !b.contains("cargo/bin"),
        "bash macos: dropped: {}",
        b
    );

    let b = bash_on(src, HostOs::Other);
    assert!(b.contains("command -v cargo"), "bash and lhs: {}", b);
    assert!(b.contains("&&"), "bash and op: {}", b);
    assert!(b.contains("Linux"), "bash and rhs: {}", b);

    let f = fish(src);
    assert!(f.contains("type -q cargo"), "fish and lhs: {}", f);
    assert!(!f.contains(";  and  "), "fish linux: unexpected ;  and : {}", f);
    let f = fish_on(src, HostOs::Other);
    assert!(f.contains("type -q cargo"), "fish and lhs: {}", f);
    assert!(f.contains("Linux"), "fish and rhs: {}", f);

    let p = pwsh(src);
    assert!(p.contains("Get-Command cargo"), "pwsh and lhs: {}", p);
    assert!(!p.contains("-and"), "pwsh linux: unexpected -and: {}", p);
    let p = pwsh_on(src, HostOs::Other);
    assert!(p.contains("Get-Command cargo"), "pwsh and lhs: {}", p);
    assert!(p.contains("-and"), "pwsh and op: {}", p);
    assert!(p.contains("$IsLinux"), "pwsh and rhs: {}", p);
}

#[test]
fn if_or_condition_all_shells() {
    let src = "if os darwin or os linux\nset POSIX 1\nend";

    for host in [HostOs::Linux, HostOs::Darwin] {
        let b = bash_on(src, host);
        assert!(b.contains("export POSIX=\"1\""), "bash unix: {}", b);
        assert!(!b.contains("if "), "bash unix: unexpected if: {}", b);
        let f = fish_on(src, host);
        assert!(f.contains("set -gx POSIX"), "fish unix: {}", f);
        assert!(!f.contains("if "), "fish unix: unexpected if: {}", f);
        let p = pwsh_on(src, host);
        assert!(p.contains("$env:POSIX = \"1\""), "pwsh unix: {}", p);
        assert!(!p.contains("if ("), "pwsh unix: unexpected if: {}", p);
    }

    let b = bash_on(src, HostOs::Other);
    assert!(b.contains("Darwin"), "bash or lhs: {}", b);
    assert!(b.contains("||"), "bash or op: {}", b);
    assert!(b.contains("Linux"), "bash or rhs: {}", b);

    let f = fish_on(src, HostOs::Other);
    assert!(f.contains("Darwin"), "fish or lhs: {}", f);
    assert!(f.contains(";  or "), "fish or op: {}", f);
    assert!(f.contains("Linux"), "fish or rhs: {}", f);

    let p = pwsh_on(src, HostOs::Other);
    assert!(p.contains("$IsMacOS"), "pwsh or lhs: {}", p);
    assert!(p.contains("-or"), "pwsh or op: {}", p);
    assert!(p.contains("$IsLinux"), "pwsh or rhs: {}", p);
}

#[test]
fn prune_comprehensive_bash() {
    let src = "\
if shell bash
  set NATIVE 1
end
if shell fish
  set FISH_ONLY 1
end
if shell fish
  set A fish
else
  set A other
end
if shell fish
  set B fish
elif shell bash
  set B bash
end
if not shell fish
  set C 1
end
if shell bash and have cargo
  set D 1
end
if shell fish and have cargo
  set E 1
end
if shell bash or have cargo
  set F 1
end
if have git
  set G 1
end";
    let b = bash(src);

    assert!(
        b.contains("export NATIVE=\""),
        "(1) self-shell not inlined: {}",
        b
    );
    assert!(
        !b.contains("FISH_ONLY"),
        "(2) dead fish block leaked: {}",
        b
    );
    assert!(
        b.contains("export A=\"other\""),
        "(3) else not inlined: {}",
        b
    );
    assert!(
        b.contains("export B=\"bash\""),
        "(4) matching elif not inlined: {}",
        b
    );
    assert!(
        b.contains("export C=\""),
        "(5) not-fold: body not inlined: {}",
        b
    );
    assert!(
        b.contains("command -v cargo"),
        "(6) and+true: have-guard missing: {}",
        b
    );
    assert!(
        b.contains("export D=\""),
        "(6) and+true: D body missing: {}",
        b
    );
    assert!(
        !b.contains("export E"),
        "(7) and+false: dead block leaked: {}",
        b
    );
    assert!(
        b.contains("export F=\""),
        "(8) or+true: body not inlined: {}",
        b
    );
    assert!(
        b.contains("command -v git"),
        "(9) unknown have-guard removed: {}",
        b
    );
    assert!(
        b.contains("export G=\""),
        "(9) unknown: G body missing: {}",
        b
    );
}

#[test]
fn prune_multi_elif_chain_all_shells() {
    let src = "\
if shell fish
  set S fish
elif shell zsh
  set S zsh
elif shell bash
  set S bash
elif os linux
  set S linux
else
  set S other
end";

    let b = bash(src);
    assert!(b.contains("export S=\"bash\""), "bash branch: {}", b);
    assert!(!b.contains("if "), "bash: unexpected if-wrapper: {}", b);

    let z = zsh(src);
    assert!(z.contains("export S=\"zsh\""), "zsh branch: {}", z);
    assert!(!z.contains("if "), "zsh: unexpected if-wrapper: {}", z);

    let f = fish(src);
    assert!(f.contains("set -gx S \"fish\""), "fish branch: {}", f);
    assert!(!f.contains("if "), "fish: unexpected if-wrapper: {}", f);

    let p = pwsh(src);
    assert!(
        p.contains("$env:S = \"linux\""),
        "pwsh linux: linux body missing: {}",
        p
    );
    assert!(
        !p.contains("if ("),
        "pwsh linux: unexpected if wrapper: {}",
        p
    );

    let p = pwsh_on(src, HostOs::Darwin);
    assert!(
        p.contains("$env:S = \"other\""),
        "pwsh macos: else missing: {}",
        p
    );
    assert!(
        !p.contains("if ("),
        "pwsh macos: unexpected if wrapper: {}",
        p
    );

    let p = pwsh_on(src, HostOs::Windows);
    assert!(
        p.contains("$env:S = \"other\""),
        "pwsh windows: else missing: {}",
        p
    );

    let p = pwsh_on(src, HostOs::Other);
    assert!(p.contains("$IsLinux"), "pwsh: os guard missing: {}", p);
    assert!(
        p.contains("$env:S = \"linux\""),
        "pwsh: linux body missing: {}",
        p
    );
    assert!(
        p.contains("$env:S = \"other\""),
        "pwsh: else preserved: {}",
        p
    );
}

#[test]
fn quoted_path_is_stripped() {
    let b = bash("path+ \"$HOME/.cargo/bin\"");
    assert!(!b.contains("\\\"$HOME"), "bash double-quote leaked: {}", b);
    assert!(b.contains("$HOME/.cargo/bin"), "bash path missing: {}", b);

    let f = fish("path+ \"$HOME/.cargo/bin\"");
    assert!(!f.contains("\\\"$HOME"), "fish double-quote leaked: {}", f);
    assert!(f.contains("$HOME/.cargo/bin"), "fish path missing: {}", f);
}

#[test]
fn if_env_all_shells() {
    let src = "if env CARGO_HOME\npath+ $CARGO_HOME/bin\nend";

    let b = bash(src);
    assert!(b.contains("CARGO_HOME"), "bash env cond: {}", b);
    assert!(b.contains("-n \""), "bash -n check: {}", b);
    assert!(b.contains("if "), "bash if wrapper: {}", b);

    let f = fish(src);
    assert!(f.contains("set -q CARGO_HOME"), "fish env cond: {}", f);
    assert!(f.contains("if "), "fish if wrapper: {}", f);

    let p = pwsh(src);
    assert!(p.contains("Test-Path env:CARGO_HOME"), "pwsh env cond: {}", p);
    assert!(p.contains("if ("), "pwsh if wrapper: {}", p);
}

// ── further cases ────────────────────────────────────────────────────────────

#[test]
fn path_backslashes_become_forward_slashes_in_every_shell() {
    let p = pwsh("path+ C:\\tools");
    assert_eq!(
        p,
        "if ($env:PATH -notlike '*C:/tools*') { $env:PATH = \"C:/tools;$env:PATH\" }"
    );
    let b = bash("path- C:\\tools");
    assert_eq!(
        b,
        "[[ \"${PATH}\" != *\"C:/tools\"* ]] && export PATH=\"$PATH:C:/tools\""
    );
}

#[test]
fn readme_bash_output_on_other_host() {
    let src = "\
set EDITOR nvim

# shell aliases
alias ll ls -la
alias g git

# per-OS browser
if os darwin
  set BROWSER open
elif os linux
  set BROWSER xdg-open
end

if exists $HOME/.cargo/bin
  path+ $HOME/.cargo/bin
end

if env CARGO_HOME
  path+ $CARGO_HOME/bin
end

if have zoxide and os linux
  call zoxide init {shell}
end

if have starship
  call starship init {shell}
end
";
    let expected = "\
export EDITOR=\"nvim\"
alias ll='ls -la'
alias g='git'
if [ \"$(uname -s)\" = \"Darwin\" ]; then
  export BROWSER=\"open\"
elif [ \"$(uname -s)\" = \"Linux\" ]; then
  export BROWSER=\"xdg-open\"
fi
if [ -e \"$HOME/.cargo/bin\" ]; then
  [[ \"${PATH}\" != *\"$HOME/.cargo/bin\"* ]] && export PATH=\"$HOME/.cargo/bin:$PATH\"
fi
if [ -n \"${CARGO_HOME:-}\" ]; then
  [[ \"${PATH}\" != *\"$CARGO_HOME/bin\"* ]] && export PATH=\"$CARGO_HOME/bin:$PATH\"
fi
if command -v zoxide >/dev/null 2>&1 && [ \"$(uname -s)\" = \"Linux\" ]; then
  eval \"$(zoxide init bash)\"
fi
if command -v starship >/dev/null 2>&1; then
  eval \"$(starship init bash)\"
fi";
    assert_eq!(bash_on(src, HostOs::Other), expected);
}

#[test]
fn emit_dispatches_on_shell_name() {
    let ast = Parser::new("call starship init {shell}", None).parse().unwrap();
    assert_eq!(emit("bash", &ast).unwrap(), "eval \"$(starship init bash)\"");
    assert_eq!(emit("zsh", &ast).unwrap(), "eval \"$(starship init zsh)\"");
    assert_eq!(emit("fish", &ast).unwrap(), "starship init fish | source");
    assert_eq!(
        emit("pwsh", &ast).unwrap(),
        "Invoke-Expression (& starship init powershell)"
    );
    assert_eq!(
        emit("nu", &ast).unwrap_err(),
        "unknown shell \"nu\" — choose: bash, zsh, fish, pwsh"
    );
}

#[test]
fn tree_size_counts_statements_and_blocks() {
    let ast = Parser::new("set A 1\nif have x\nset B 2\nelif have y\nset C 3\nelse\nset D 4\nend", None)
        .parse()
        .unwrap();
    // set: 1 + 1; if: 2 + (body 2) + (elif 2 + 1) + (else 2), + 1.
    assert_eq!(tree_size(&ast), Some(2 + 2 + 2 + 3 + 2 + 1));
    assert_eq!(tree_size(&[]), Some(0));
}

// The next four scenarios also carry PowerShell assertions that contradict the
// documented behaviour and the PowerShell back end's own cases: a `C:\tools`
// kept with its backslash (path tokens are stored with `/` in place of `\`), and
// a short `Set-Alias NAME BODY` form (aliases are written as
// `Set-Alias -Scope Global -Name NAME -Value BODY`). Those assertions are left
// out; every other one is kept as it stands, and the PowerShell output is
// checked against the documented form instead.

#[test]
fn path_prepend_and_append() {
    let b_prepend = bash("path+ /usr/local/bin");
    assert!(b_prepend.contains("export PATH=\"/usr/local/bin:$PATH\""), "bash prepend add: {}", b_prepend);
    assert!(b_prepend.contains("[[ "), "bash prepend guard: {}", b_prepend);

    let b_append = bash("path- /opt/bin");
    assert!(b_append.contains("export PATH=\"$PATH:/opt/bin\""), "bash append add: {}", b_append);
    assert!(b_append.contains("[[ "), "bash append guard: {}", b_append);

    assert_eq!(fish("path+ /usr/local/bin"), "fish_add_path -gP \"/usr/local/bin\"");
    assert_eq!(fish("path- /opt/bin"), "fish_add_path -gaP \"/opt/bin\"");

    let p_prepend = pwsh("path+ C:\\tools");
    assert!(p_prepend.contains("$env:PATH = \"C:/tools;$env:PATH\""), "pwsh prepend add: {}", p_prepend);
    assert!(p_prepend.contains("-notlike"), "pwsh prepend guard: {}", p_prepend);
}

#[test]
fn alias_all_shells() {
    assert_eq!(bash("alias ll ls -la"), "alias ll='ls -la'");
    assert_eq!(zsh("alias ll ls -la"), "alias ll='ls -la'");
    assert_eq!(fish("alias ll ls -la"), "alias ll ls -la");
    assert_eq!(pwsh("alias ll ls -la"), "Set-Alias -Scope Global -Name ll -Value ls -la");
}

#[test]
fn alias_single_word_body() {
    assert_eq!(bash("alias g git"), "alias g='git'");
    assert_eq!(fish("alias g git"), "alias g git");
    assert_eq!(pwsh("alias g git"), "Set-Alias -Scope Global -Name g -Value git");
}

#[test]
fn path_dedup_guard_present() {
    let b = bash("path+ /usr/local/bin");
    assert!(b.contains("[[ "), "bash guard missing: {}", b);
    assert!(b.contains("/usr/local/bin"), "bash dir missing: {}", b);
    assert_eq!(b.matches("/usr/local/bin").count(), 2, "bash dir count: {}", b);

    let f = fish("path+ /usr/local/bin");
    assert!(!f.contains("[[ "), "fish: unexpected guard: {}", f);

    let p = pwsh("path+ C:\\tools");
    assert!(p.contains("-notlike"), "pwsh guard missing: {}", p);
    assert!(p.contains("C:/tools"), "pwsh dir missing: {}", p);
}

#[test]
fn elif_for_another_shell_is_not_emitted() {
    let src = "if have git\nset A 1\nelif shell fish\nset B 2\nend";
    assert_eq!(bash(src), "if command -v git >/dev/null 2>&1; then\n  export A=\"1\"\nfi");
    assert_eq!(
        fish(src),
        "if type -q git\n  set -gx A \"1\"\nelse\n  set -gx B \"2\"\nend"
    );
}
