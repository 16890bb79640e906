# shed

**Sh**ell **E**nvironment **D**eclaration: one `.shed` file compiled to bash,
zsh, fish or PowerShell. Parsing, pruning and emitting are proved in Verus
against a mathematical model. Where a relative directory is joined onto the
`.shed` file's directory, the result is stated for what every platform treats
alike: a relative token is appended after the base (drive and UNC bases
included) with one separator, and a token rooted at `/` is kept. What depends
on the platform (a bare drive or verbatim base, tokens with a drive or a `\`
root) is held only to "no `\` in the result".

```sh
shed bash  ~/.config/shed/env.shed   # → bash / POSIX sh
shed zsh   ~/.config/shed/env.shed   # → zsh
shed fish  ~/.config/shed/env.shed   # → fish
shed pwsh  ~/.config/shed/env.shed   # → PowerShell
shed check ~/.config/shed/env.shed   # → parse & validate only
```

## Layout

- `src/ast.rs`: statements and conditions, their models (`NodeM`, `CondM`,
  `IfM`) and the size measure that the recursive proofs descend on.
- `src/text.rs`: character-level helpers (line splitting, comments, white
  space, trimming, replacing, joining), each against a spec function.
- `src/parser.rs`: the grammar as spec functions over token lines
  (`block_of`, `statement_of`, `if_of`, `or_cond`, …) and the recursive-descent
  parser proved to follow it, error lines and messages included.
- `src/prune.rs`: compile-time folding of `shell` and `os` conditions, with
  the laws that pruning keeps what a script does on every matching machine,
  is idempotent, leaves runtime checks alone and leaves no condition, in an
  `if` or an `elif`, that the target decides.
- `src/emit.rs` and `src/emit/`: the `Emitter` trait and the three back ends,
  each proved to produce exactly the lines that `block_lines` describes, and
  the law that the lines at depth `d` are those at depth 0 indented `d` levels.
- `app/main.rs`: the command line (arguments, files, stdin, printing).
- `tests/`: scenarios on concrete inputs, run against the compiled library.
