//! Parser: `.shed` source text to statements.
//!
//! Two phases: the source is cut into lines, comments are dropped and each line
//! is split into white-space separated tokens; then a recursive descent over
//! those token lines builds the statements.
use std::borrow::Cow;
use vstd::prelude::*;
use crate::ast::{
    Cond, CondM, IfM, IfNode, Node, NodeM, ParseError, PathDir, cond_model, elifs_model, if_model,
    node_model, nodes_model,
};
use crate::text::{
    chars_of, code_end, code_part, forward_slash, segments, split_lines, words, forward_slashes, join_from, join_with, line_bounds,
    same_text, split_words, strs_view, string_of, debug_text, debug_quoted,
};

verus! {

// ── free helpers ─────────────────────────────────────────────────────────────

/// `s` without one layer of surrounding `"…"` or `'…'`, when the whole of it is so wrapped.
pub open spec fn unquote(s: Seq<char>) -> Seq<char> {
    if s.len() >= 2 && ((s[0] == '"' && s.last() == '"') || (s[0] == '\'' && s.last() == '\'')) {
        s.subrange(1, s.len() - 1)
    } else {
        s
    }
}

/// Strip a single layer of surrounding `"…"` or `'…'` from `s`.
/// Only acts when the *entire* token is wrapped; partial quotes are left alone.
/// Returns a borrowed slice when no stripping is needed.
pub fn strip_quotes(s: &str) -> (r: Cow<'_, str>)
    ensures
        r@ == unquote(s@),
{
    let cs = chars_of(s);
    let n = cs.len();
    let quoted = n >= 2 && ((cs[0] == '"' && cs[n - 1] == '"') || (cs[0] == '\'' && cs[n - 1]
        == '\''));
    if quoted {
        Cow::Owned(string_of(&cs, 1, n - 1))
    } else {
        Cow::Borrowed(s)
    }
}

/// The token at `idx`, or the error `msg` on line `ln`.
fn tok(toks: &[String], idx: usize, ln: usize, msg: &str) -> (r: Result<String, ParseError>)
    ensures
        idx < toks@.len() ==> (r matches Ok(t) && t@ == toks@[idx as int]@),
        idx >= toks@.len() ==> (r matches Err(e) && e.line == ln && e.msg@ == msg@),
{
    if idx < toks.len() {
        Ok(toks[idx].clone())
    } else {
        Err(ParseError::at(ln, String::from_str(msg)))
    }
}

/// The token at `idx` with outer quotes stripped, or the error `msg` on line `ln`.
fn tok_stripped(toks: &[String], idx: usize, ln: usize, msg: &str) -> (r: Result<String, ParseError>)
    ensures
        idx < toks@.len() ==> (r matches Ok(t) && t@ == unquote(toks@[idx as int]@)),
        idx >= toks@.len() ==> (r matches Err(e) && e.line == ln && e.msg@ == msg@),
{
    if idx < toks.len() {
        match strip_quotes(toks[idx].as_str()) {
            Cow::Borrowed(b) => Ok(String::from_str(b)),
            Cow::Owned(o) => Ok(o),
        }
    } else {
        Err(ParseError::at(ln, String::from_str(msg)))
    }
}

/// The tokens from `from` on joined with single spaces, when there are any.
pub open spec fn tail_text(toks: Seq<Seq<char>>, from: int) -> Option<Seq<char>> {
    if 0 <= from < toks.len() {
        Some(join_with(toks.skip(from), " "@))
    } else {
        None
    }
}

/// Join tokens from index `from` onward with spaces. `None` when there are none.
fn tail_joined(toks: &[String], from: usize) -> (r: Option<String>)
    ensures
        r matches Some(s) ==> tail_text(strs_view(toks@), from as int) == Some(s@),
        r is None ==> tail_text(strs_view(toks@), from as int) is None,
{
    if from < toks.len() {
        Some(join_from(toks, from, " "))
    } else {
        None
    }
}

/// Like `tail_joined`, with outer quotes stripped from the joined text.
fn tail_stripped(toks: &[String], from: usize) -> (r: Option<String>)
    ensures
        r matches Some(s) ==> (tail_text(strs_view(toks@), from as int) matches Some(t) && s@
            == unquote(t)),
        r is None ==> tail_text(strs_view(toks@), from as int) is None,
{
    match tail_joined(toks, from) {
        Some(s) => match strip_quotes(s.as_str()) {
            Cow::Borrowed(b) => Some(String::from_str(b)),
            Cow::Owned(o) => Some(o),
        },
        None => None,
    }
}

/// `toks[i]` is `op` with at least two tokens before it and one after it.
pub open spec fn op_at(toks: Seq<Seq<char>>, op: Seq<char>, i: int) -> bool {
    2 <= i && i + 1 < toks.len() && toks[i] == op
}

/// `i` is the rightmost position where `op` can split `toks` as a binary operator.
pub open spec fn is_last_op(toks: Seq<Seq<char>>, op: Seq<char>, i: int) -> bool {
    op_at(toks, op, i) && forall|j: int| op_at(toks, op, j) ==> j <= i
}

/// Find the rightmost position of `op` in `toks` satisfying the
/// left-associative binary-operator constraint:
///   - at least two tokens to the left  (`i >= 2`)
///   - at least one token to the right  (`i + 1 < toks.len()`)
fn last_op_pos(toks: &[String], op: &str) -> (r: Option<usize>)
    ensures
        r matches Some(i) ==> is_last_op(strs_view(toks@), op@, i as int),
        r is None ==> forall|j: int| !op_at(strs_view(toks@), op@, j),
{
    let ghost tv = strs_view(toks@);
    let mut i = toks.len();
    while i > 0
        invariant
            i <= toks@.len(),
            tv == strs_view(toks@),
            forall|j: int| i <= j ==> !op_at(tv, op@, j),
        decreases i,
    {
        i = i - 1;
        if i >= 2 && i + 1 < toks.len() && same_text(toks[i].as_str(), op) {
            return Some(i);
        }
    }
    None
}

/// `s` holds a shell variable reference (`$…`) or starts with `~`: the target
/// shell must expand it.
pub open spec fn shell_var(s: Seq<char>) -> bool {
    (s.len() > 0 && s[0] == '~') || s.contains('$')
}

/// Return `true` when `s` contains a shell variable reference that must be
/// left for the target shell to expand at runtime.
fn contains_shell_variable(s: &str) -> (r: bool)
    ensures
        r == shell_var(s@),
{
    let cs = chars_of(s);
    if cs.len() > 0 && cs[0] == '~' {
        return true;
    }
    let mut i: usize = 0;
    while i < cs.len()
        invariant
            cs@ == s@,
            i <= cs@.len(),
            forall|j: int| 0 <= j < i ==> cs@[j] != '$',
        decreases cs@.len() - i,
    {
        if cs[i] == '$' {
            assert(s@[i as int] == '$');
            return true;
        }
        i = i + 1;
    }
    false
}

/// A path separator on some platform: `/` everywhere, `\` on Windows.
pub open spec fn is_sep(c: char) -> bool {
    c == '/' || c == '\\'
}

/// A base directory with no drive, UNC or verbatim prefix on any platform: no
/// `:`, and not starting with two separators.
pub open spec fn unprefixed(b: Seq<char>) -> bool {
    !b.contains(':') && !(b.len() >= 2 && is_sep(b[0]) && is_sep(b[1]))
}

/// A token rooted at `/` with no prefix on any platform: it starts with a single
/// `/` and holds no `:`.
pub open spec fn rooted(s: Seq<char>) -> bool {
    s.len() > 0 && s[0] == '/' && !(s.len() >= 2 && is_sep(s[1])) && !s.contains(':')
}

/// A token that every platform reads as relative: not empty, not starting with
/// a separator, and holding no `:`.
pub open spec fn relative_token(s: Seq<char>) -> bool {
    s.len() > 0 && !is_sep(s[0]) && !s.contains(':')
}

/// A base directory onto which every platform appends a relative token the
/// same way: not empty, not a bare drive such as `C:` (onto which Windows
/// appends without a separator), and not a verbatim path such as `\\?\C:\x`
/// (which Windows rebuilds component by component). Drive (`C:\x`), UNC
/// (`\\srv\share`) and device (`\\.\x`) bases are included.
pub open spec fn joinable_base(b: Seq<char>) -> bool {
    &&& b.len() > 0
    &&& !(b.len() == 2 && b[1] == ':')
    &&& !(b.len() >= 3 && is_sep(b[0]) && is_sep(b[1]) && b[2] == '?')
}

/// What `Path::new(b).join(t)` gives as text, as far as it is the same on every
/// platform. A token rooted at `/` replaces a base without a prefix (joining an
/// absolute path replaces the base; a rooted one keeps only the base's prefix,
/// which is empty). A relative token is appended after a joinable base, with
/// one separator unless the base already ends in one (`/` is a separator
/// everywhere; `\` only on Windows, and elsewhere `/` is inserted; the
/// separator inserted is `/`, or `\` on Windows).
pub open spec fn join_text(j: Seq<char>, b: Seq<char>, t: Seq<char>) -> bool {
    &&& (unprefixed(b) && rooted(t)) ==> j == t
    &&& (joinable_base(b) && relative_token(t)) ==> if b.last() == '/' {
        j == b + t
    } else if b.last() == '\\' {
        j == b + t || j == b + seq!['/'] + t
    } else {
        j == b + seq!['/'] + t || j == b + seq!['\\'] + t
    }
}

/// `std::path::Path::is_relative` for `raw`.
///
/// Whether a path is relative depends on the platform's path rules (on Windows
/// `/bin` is relative, on Unix it is absolute). Stated here is what holds on
/// every platform: a token with no root and no prefix is relative.
#[verifier::external_body]
fn path_is_relative(raw: &str) -> (r: bool)
    ensures
        relative_token(raw@) ==> r,
{
    std::path::Path::new(raw).is_relative()
}

/// `std::path::Path::join` of `base` and `raw`, as text.
///
/// What is stated is what `join_text` says, which holds on every platform
/// (`to_string_lossy` is exact on text that came from a `str`). Nothing is
/// stated for a relative token joined onto an empty base, a bare drive or a
/// verbatim path; for a rooted token joined onto a base with a prefix; nor for
/// a token starting with `\` or `//`, holding a `:`, or empty: those depend on
/// the platform.
#[verifier::external_body]
fn path_join(base: &str, raw: &str) -> (r: String)
    ensures
        join_text(r@, base@, raw@),
{
    std::path::Path::new(base).join(raw).to_string_lossy().into_owned()
}

/// The directory stored for path token `raw`, given whether the platform deems
/// it relative and what joining it onto the base directory gave (`None` when
/// there is no base directory).
pub open spec fn resolved_dir(raw: Seq<char>, relative: bool, joined: Option<Seq<char>>) -> Seq<char> {
    if shell_var(raw) {
        forward_slashes(raw)
    } else {
        match joined {
            Some(j) => if relative {
                forward_slashes(j)
            } else {
                forward_slashes(raw)
            },
            None => forward_slashes(raw),
        }
    }
}

/// Finish resolving path token `raw` from the platform's answers: whether it is
/// relative, and what joining it onto the base directory gave.
pub fn resolved_from(raw: &str, relative: bool, joined: Option<&str>) -> (r: String)
    ensures
        r@ == resolved_dir(raw@, relative, match joined {
            Some(j) => Some(j@),
            None => None,
        }),
{
    if contains_shell_variable(raw) {
        return forward_slash(raw);
    }
    match joined {
        Some(j) => if relative {
            forward_slash(j)
        } else {
            forward_slash(raw)
        },
        None => forward_slash(raw),
    }
}

/// What holds of the directory `got` stored for path token `raw`: with no base
/// directory, or for a token left to the shell, exactly the token with `\`
/// turned into `/`; with a base directory, what `joined_dir` says; in every
/// case, no `\`.
pub open spec fn dir_ok(got: Seq<char>, raw: Seq<char>, base: Option<Seq<char>>) -> bool {
    &&& (base is None || shell_var(raw)) ==> got == forward_slashes(raw)
    &&& match base {
        Some(b) => !shell_var(raw) ==> joined_dir(got, b, raw),
        None => true,
    }
    &&& !got.contains('\\')
}

/// What holds of the directory `got` stored for token `raw` (not left to the
/// shell) under base directory `b`, on every platform: a token rooted at `/`
/// comes back as written (for a base without a prefix); a relative token is
/// the base, `/` unless the base ends in `/`, and the token (for a joinable
/// base, drive and UNC bases included); all with `\` turned into `/`.
pub open spec fn joined_dir(got: Seq<char>, b: Seq<char>, raw: Seq<char>) -> bool {
    let fb = forward_slashes(b);
    let fr = forward_slashes(raw);
    &&& (unprefixed(b) && rooted(raw)) ==> got == fr
    &&& (joinable_base(b) && relative_token(raw)) ==> if b.last() == '/' {
        got == fb + fr
    } else if b.last() == '\\' {
        got == fb + fr || got == fb + seq!['/'] + fr
    } else {
        got == fb + seq!['/'] + fr
    }
}

proof fn lemma_fwd_concat(a: Seq<char>, b: Seq<char>)
    ensures
        forward_slashes(a + b) == forward_slashes(a) + forward_slashes(b),
        forward_slashes(seq!['/']) == seq!['/'],
        forward_slashes(seq!['\\']) == seq!['/'],
{
    assert(forward_slashes(a + b) =~= forward_slashes(a) + forward_slashes(b));
    assert(forward_slashes(seq!['/']) =~= seq!['/']);
    assert(forward_slashes(seq!['\\']) =~= seq!['/']);
}

proof fn lemma_no_backslash(s: Seq<char>)
    ensures
        !forward_slashes(s).contains('\\'),
{
    if forward_slashes(s).contains('\\') {
        let i = choose|i: int| 0 <= i < forward_slashes(s).len() && forward_slashes(s)[i] == '\\';
        assert(forward_slashes(s)[i] == (if s[i] == '\\' { '/' } else { s[i] }));
    }
}

/// Resolve a path token from a shed source file.
///
/// 1. Shell variable detected (`$…`, leading `~`) → the token unchanged; the
///    target shell expands it.
/// 2. Relative path → joined onto `base` (the shed file's directory); kept as
///    it is when `base` is `None`.
/// 3. Absolute path → unchanged.
///
/// In all cases `\` becomes `/`. With no base directory, or for a token left to
/// the shell, the result is exactly the token with forward slashes. With a base
/// directory, `joined_dir` states the result for every token and base that all
/// platforms treat alike; the rest depends on the platform's path rules.
pub fn resolve_path(raw: &str, base: Option<&str>) -> (r: String)
    ensures
        dir_ok(r@, raw@, match base {
            Some(b) => Some(b@),
            None => None,
        }),
{
    let r = match base {
        Some(b) => {
            if contains_shell_variable(raw) {
                resolved_from(raw, false, None)
            } else if path_is_relative(raw) {
                let joined = path_join(b, raw);
                proof {
                    lemma_fwd_concat(b@, raw@);
                    lemma_fwd_concat(b@, seq!['/']);
                    lemma_fwd_concat(b@ + seq!['/'], raw@);
                    lemma_fwd_concat(b@, seq!['\\']);
                    lemma_fwd_concat(b@ + seq!['\\'], raw@);
                    lemma_no_backslash(joined@);
                }
                resolved_from(raw, true, Some(joined.as_str()))
            } else {
                proof {
                    lemma_no_backslash(raw@);
                }
                resolved_from(raw, false, None)
            }
        },
        None => resolved_from(raw, false, None),
    };
    proof {
        lemma_no_backslash(raw@);
    }
    r
}

// ── conditions ───────────────────────────────────────────────────────────────

/// A parse failure: the source line and the message.
pub type Failure = (int, Seq<char>);

/// The condition written by tokens `t` on line `ln`: `or` binds loosest, then
/// `and`, then prefix `not`; `and` and `or` group to the left.
pub open spec fn or_cond(ln: int, t: Seq<Seq<char>>) -> Result<CondM, Failure>
    decreases t.len(), 3nat,
{
    if exists|i: int| is_last_op(t, "or"@, i) {
        let i = choose|i: int| is_last_op(t, "or"@, i);
        match or_cond(ln, t.take(i)) {
            Err(e) => Err(e),
            Ok(l) => match and_cond(ln, t.skip(i + 1)) {
                Err(e) => Err(e),
                Ok(r) => Ok(CondM::Or(Box::new(l), Box::new(r))),
            },
        }
    } else {
        and_cond(ln, t)
    }
}

pub open spec fn and_cond(ln: int, t: Seq<Seq<char>>) -> Result<CondM, Failure>
    decreases t.len(), 2nat,
{
    if exists|i: int| is_last_op(t, "and"@, i) {
        let i = choose|i: int| is_last_op(t, "and"@, i);
        match and_cond(ln, t.take(i)) {
            Err(e) => Err(e),
            Ok(l) => match not_cond(ln, t.skip(i + 1)) {
                Err(e) => Err(e),
                Ok(r) => Ok(CondM::And(Box::new(l), Box::new(r))),
            },
        }
    } else {
        not_cond(ln, t)
    }
}

pub open spec fn not_cond(ln: int, t: Seq<Seq<char>>) -> Result<CondM, Failure>
    decreases t.len(), 1nat,
{
    if t.len() > 0 && t[0] == "not"@ {
        if t.len() < 2 {
            Err((ln, "'not' requires a condition"@))
        } else {
            match not_cond(ln, t.drop_first()) {
                Err(e) => Err(e),
                Ok(c) => Ok(CondM::Not(Box::new(c))),
            }
        }
    } else {
        leaf_cond(ln, t)
    }
}

/// A leaf condition `<type> <value>`; tokens after the value are ignored.
pub open spec fn leaf_cond(ln: int, t: Seq<Seq<char>>) -> Result<CondM, Failure> {
    if t.len() == 0 {
        Err((ln, "condition requires a type"@))
    } else if t.len() < 2 {
        Err((ln, t[0] + " requires a value"@))
    } else {
        let kind = t[0];
        let val = unquote(t[1]);
        if kind == "have"@ {
            Ok(CondM::Have(val))
        } else if kind == "exists"@ {
            Ok(CondM::Exists(forward_slashes(val)))
        } else if kind == "env"@ {
            Ok(CondM::Env(val))
        } else if kind == "os"@ {
            Ok(CondM::Os(val))
        } else if kind == "shell"@ {
            Ok(CondM::Shell(val))
        } else {
            Err(
                (
                    ln,
                    "unknown condition "@ + debug_text(kind)
                        + " -- use: have | exists | env | os | shell"@,
                ),
            )
        }
    }
}

/// The parsed condition `r` is the one `s` describes.
pub open spec fn cond_agrees(r: Result<Cond, ParseError>, s: Result<CondM, Failure>) -> bool {
    match (r, s) {
        (Ok(c), Ok(m)) => cond_model(c) == m,
        (Err(e), Err(f)) => e.line == f.0 && e.msg@ == f.1,
        _ => false,
    }
}

proof fn lemma_last_op_unique(t: Seq<Seq<char>>, op: Seq<char>, i: int, j: int)
    requires
        is_last_op(t, op, i),
        is_last_op(t, op, j),
    ensures
        i == j,
{
}

// ── statements ───────────────────────────────────────────────────────────────

/// Token lines: `(source line number, tokens)` for each line that holds a token.
pub type Lines = Seq<(int, Seq<Seq<char>>)>;

/// One parse step: what was parsed and the line position after it, or a failure.
pub type Step<T> = Result<(T, int), Failure>;

/// The token lines of the source lines `ls`: comments (from `#`) dropped, the rest
/// split at white space, lines without tokens left out; numbers are 1-based.
pub open spec fn keep_lines(ls: Seq<Seq<char>>) -> Lines
    decreases ls.len(),
{
    if ls.len() == 0 {
        Seq::empty()
    } else {
        let prev = keep_lines(ls.drop_last());
        let t = words(code_part(ls.last()));
        if t.len() == 0 {
            prev
        } else {
            prev.push((ls.len() as int, t))
        }
    }
}

/// The token lines of source text `src`.
pub open spec fn token_lines(src: Seq<char>) -> Lines {
    keep_lines(split_lines(src))
}

/// The block-ending keywords that `stops` names.
pub open spec fn stops_at(stops: int, kw: Seq<char>) -> bool {
    if stops == 1 {
        kw == "elif"@ || kw == "else"@ || kw == "end"@
    } else if stops == 2 {
        kw == "end"@
    } else {
        false
    }
}

/// Statements from line `pos` up to a line starting with a keyword that `stops`
/// names (0: none, 1: `elif`/`else`/`end`, 2: `end`) or the end of input.
pub open spec fn block_of(ls: Lines, pos: int, stops: int) -> Step<Seq<NodeM>>
    decreases ls.len() - pos, 1nat,
{
    if pos < 0 || pos >= ls.len() || stops_at(stops, ls[pos].1[0]) {
        Ok((Seq::empty(), pos))
    } else {
        match statement_of(ls, pos) {
            Err(e) => Err(e),
            Ok((n, p)) => if pos < p <= ls.len() {
                match block_of(ls, p, stops) {
                    Err(e) => Err(e),
                    Ok((ns, q)) => Ok((seq![n] + ns, q)),
                }
            } else {
                Err((0, Seq::empty()))
            },
        }
    }
}

/// The statement that starts at line `pos`.
pub open spec fn statement_of(ls: Lines, pos: int) -> Step<NodeM>
    decreases ls.len() - pos, 0nat,
{
    if pos < 0 || pos >= ls.len() {
        Err((0, Seq::empty()))
    } else {
        let ln = ls[pos].0;
        let t = ls[pos].1;
        let kw = t[0];
        if kw == "set"@ {
            if t.len() < 2 {
                Err((ln, "usage: set KEY VALUE"@))
            } else {
                match tail_text(t, 2) {
                    None => Err((ln, "usage: set KEY VALUE"@)),
                    Some(v) => Ok((NodeM::SetEnv { key: t[1], val: unquote(v) }, pos + 1)),
                }
            }
        } else if kw == "path+"@ || kw == "path-"@ {
            if t.len() < 2 {
                Err((ln, "usage: "@ + kw + " DIR"@))
            } else {
                Ok(
                    (
                        NodeM::Path {
                            dir: unquote(t[1]),
                            direction: if kw == "path+"@ {
                                PathDir::Prepend
                            } else {
                                PathDir::Append
                            },
                        },
                        pos + 1,
                    ),
                )
            }
        } else if kw == "call"@ {
            if t.len() < 2 {
                Err((ln, "usage: call CMD [ARGS]"@))
            } else {
                Ok(
                    (
                        NodeM::Call {
                            cmd: unquote(t[1]),
                            args: match tail_text(t, 2) {
                                Some(a) => a,
                                None => Seq::empty(),
                            },
                        },
                        pos + 1,
                    ),
                )
            }
        } else if kw == "alias"@ {
            if t.len() < 2 {
                Err((ln, "usage: alias NAME BODY"@))
            } else {
                match tail_text(t, 2) {
                    None => Err((ln, "usage: alias NAME BODY"@)),
                    Some(b) => Ok((NodeM::Alias { name: t[1], body: unquote(b) }, pos + 1)),
                }
            }
        } else if kw == "if"@ {
            if t.len() < 2 {
                Err((ln, "usage: if <cond-type> <value>"@))
            } else {
                match or_cond(ln, t.drop_first()) {
                    Err(e) => Err(e),
                    Ok(c) => if_of(ls, pos + 1, ln, c),
                }
            }
        } else {
            Err((ln, "unknown keyword "@ + debug_text(kw)))
        }
    }
}

/// The `if` block with condition `c` opened on line `if_ln`, whose body starts at `pos`.
pub open spec fn if_of(ls: Lines, pos: int, if_ln: int, c: CondM) -> Step<NodeM>
    decreases ls.len() - pos, 3nat,
{
    match block_of(ls, pos, 1) {
        Err(e) => Err(e),
        Ok((body, p)) => if pos <= p <= ls.len() {
            if_tail(
                ls,
                p,
                if_ln,
                IfM { cond: c, body, elifs: Seq::empty(), else_: Seq::empty() },
            )
        } else {
            Err((0, Seq::empty()))
        },
    }
}

/// The rest of an `if` block from line `pos`: `elif` and `else` branches, then `end`.
pub open spec fn if_tail(ls: Lines, pos: int, if_ln: int, node: IfM) -> Step<NodeM>
    decreases ls.len() - pos, 2nat,
{
    if pos < 0 || pos >= ls.len() {
        Err((if_ln, "unterminated if-block (missing 'end')"@))
    } else {
        let ln = ls[pos].0;
        let t = ls[pos].1;
        let kw = t[0];
        if kw == "end"@ {
            Ok((NodeM::If(node), pos + 1))
        } else if kw == "elif"@ {
            if t.len() < 2 {
                Err((ln, "elif requires a condition"@))
            } else {
                match or_cond(ln, t.drop_first()) {
                    Err(e) => Err(e),
                    Ok(c) => match block_of(ls, pos + 1, 1) {
                        Err(e) => Err(e),
                        Ok((b, p)) => if pos + 1 <= p <= ls.len() {
                            if_tail(ls, p, if_ln, IfM { elifs: node.elifs.push((c, b)), ..node })
                        } else {
                            Err((0, Seq::empty()))
                        },
                    },
                }
            }
        } else if kw == "else"@ {
            match block_of(ls, pos + 1, 2) {
                Err(e) => Err(e),
                Ok((b, p)) => if pos + 1 <= p <= ls.len() {
                    if_tail(ls, p, if_ln, IfM { else_: b, ..node })
                } else {
                    Err((0, Seq::empty()))
                },
            }
        } else {
            Err((ln, "unexpected "@ + debug_text(kw) + " inside if-block"@))
        }
    }
}

/// The statements of token lines `ls` from line `pos` to the end of input.
pub open spec fn parse_lines(ls: Lines, pos: int) -> Result<Seq<NodeM>, Failure> {
    match block_of(ls, pos, 0) {
        Ok((ns, _)) => Ok(ns),
        Err(e) => Err(e),
    }
}

// ── parsed against planned ──────────────────────────────────────────────────

/// `got` is `planned` with each `path+`/`path-` directory, as written in the
/// source, resolved as `dir_ok` allows for base directory `base`.
pub open spec fn same_seq(got: Seq<NodeM>, planned: Seq<NodeM>, base: Option<Seq<char>>) -> bool
    decreases planned, 0nat,
{
    got.len() == planned.len() && (planned.len() == 0 || (same_seq(
        got.drop_last(),
        planned.drop_last(),
        base,
    ) && same_node(got.last(), planned.last(), base)))
}

pub open spec fn same_node(got: NodeM, planned: NodeM, base: Option<Seq<char>>) -> bool
    decreases planned, 0nat,
{
    match planned {
        NodeM::Path { dir, direction } => match got {
            NodeM::Path { dir: d, direction: r } => r == direction && dir_ok(d, dir, base),
            _ => false,
        },
        NodeM::If(j) => match got {
            NodeM::If(i) => i.cond == j.cond && same_seq(i.body, j.body, base) && same_branches(
                i.elifs,
                j.elifs,
                base,
            ) && same_seq(i.else_, j.else_, base),
            _ => false,
        },
        _ => got == planned,
    }
}

pub open spec fn same_branches(
    got: Seq<(CondM, Seq<NodeM>)>,
    planned: Seq<(CondM, Seq<NodeM>)>,
    base: Option<Seq<char>>,
) -> bool
    decreases planned, 0nat,
{
    got.len() == planned.len() && (planned.len() == 0 || (same_branches(
        got.drop_last(),
        planned.drop_last(),
        base,
    ) && got.last().0 == planned.last().0 && same_seq(got.last().1, planned.last().1, base)))
}

/// Statements `ns` as they are stored when there is no base directory: every
/// `path+`/`path-` directory, at any depth, with `\` turned into `/`.
pub open spec fn slashed_seq(ns: Seq<NodeM>) -> Seq<NodeM>
    decreases ns, 0nat,
{
    if ns.len() == 0 {
        Seq::empty()
    } else {
        slashed_seq(ns.drop_last()).push(slashed_node(ns.last()))
    }
}

pub open spec fn slashed_node(n: NodeM) -> NodeM
    decreases n, 0nat,
{
    match n {
        NodeM::Path { dir, direction } => NodeM::Path { dir: forward_slashes(dir), direction },
        NodeM::If(i) => NodeM::If(
            IfM {
                cond: i.cond,
                body: slashed_seq(i.body),
                elifs: slashed_branches(i.elifs),
                else_: slashed_seq(i.else_),
            },
        ),
        _ => n,
    }
}

pub open spec fn slashed_branches(es: Seq<(CondM, Seq<NodeM>)>) -> Seq<(CondM, Seq<NodeM>)>
    decreases es, 0nat,
{
    if es.len() == 0 {
        Seq::empty()
    } else {
        slashed_branches(es.drop_last()).push((es.last().0, slashed_seq(es.last().1)))
    }
}

proof fn lemma_same_seq_none(got: Seq<NodeM>, planned: Seq<NodeM>)
    requires
        same_seq(got, planned, None),
    ensures
        got == slashed_seq(planned),
    decreases planned, 0nat,
{
    if planned.len() > 0 {
        lemma_same_seq_none(got.drop_last(), planned.drop_last());
        lemma_same_node_none(got.last(), planned.last());
        assert(got =~= got.drop_last().push(got.last()));
    } else {
        assert(got =~= slashed_seq(planned));
    }
}

proof fn lemma_same_node_none(got: NodeM, planned: NodeM)
    requires
        same_node(got, planned, None),
    ensures
        got == slashed_node(planned),
    decreases planned, 0nat,
{
    match planned {
        NodeM::If(j) => match got {
            NodeM::If(i) => {
                lemma_same_seq_none(i.body, j.body);
                lemma_same_branches_none(i.elifs, j.elifs);
                lemma_same_seq_none(i.else_, j.else_);
            },
            _ => {},
        },
        _ => {},
    }
}

proof fn lemma_same_branches_none(
    got: Seq<(CondM, Seq<NodeM>)>,
    planned: Seq<(CondM, Seq<NodeM>)>,
)
    requires
        same_branches(got, planned, None),
    ensures
        got == slashed_branches(planned),
    decreases planned, 0nat,
{
    if planned.len() > 0 {
        lemma_same_branches_none(got.drop_last(), planned.drop_last());
        lemma_same_seq_none(got.last().1, planned.last().1);
        assert(got =~= got.drop_last().push(got.last()));
    } else {
        assert(got =~= slashed_branches(planned));
    }
}

/// A top-level block that parses runs to the end of the input.
proof fn lemma_top_block_ends(ls: Lines, pos: int)
    requires
        0 <= pos <= ls.len(),
    ensures
        block_of(ls, pos, 0) matches Ok((_, q)) ==> q == ls.len(),
    decreases ls.len() - pos,
{
    if pos < ls.len() {
        match statement_of(ls, pos) {
            Ok((n, p)) => {
                if pos < p <= ls.len() {
                    lemma_top_block_ends(ls, p);
                }
            },
            Err(_) => {},
        }
    }
}

// ── Parser ───────────────────────────────────────────────────────────────────

/// Recursive-descent parser over the token lines of a `.shed` source.
pub struct Parser {
    /// Each entry is `(source_line_number, tokens)`; line numbers are 1-based.
    lines: Vec<(usize, Vec<String>)>,
    pos: usize,
    /// Directory that relative `path+` / `path-` tokens are resolved against;
    /// `None` when reading from stdin.
    base: Option<String>,
}

/// The three block endings the parser can stop at.
#[derive(Clone, Copy, PartialEq, Eq, Structural)]
enum Stops {
    /// Top level: only the end of input.
    Top,
    /// `elif`, `else` or `end`.
    Branch,
    /// `end`.
    End,
}

spec fn stops_code(st: Stops) -> int {
    match st {
        Stops::Top => 0,
        Stops::Branch => 1,
        Stops::End => 2,
    }
}

/// Whether `kw` ends a block under `stops`.
fn is_stop(stops: Stops, kw: &str) -> (r: bool)
    ensures
        r == stops_at(stops_code(stops), kw@),
{
    match stops {
        Stops::Top => false,
        Stops::Branch => same_text(kw, "elif") || same_text(kw, "else") || same_text(kw, "end"),
        Stops::End => same_text(kw, "end"),
    }
}

/// The model of stored token lines.
spec fn lines_view(v: Seq<(usize, Vec<String>)>) -> Lines {
    v.map_values(|l: (usize, Vec<String>)| (l.0 as int, strs_view(l.1@)))
}

/// The parse result `r` agrees with step `s`, with directories as `base` allows.
pub open spec fn nodes_agree(
    r: Result<Vec<Node>, ParseError>,
    s: Step<Seq<NodeM>>,
    base: Option<Seq<char>>,
) -> bool {
    match (r, s) {
        (Ok(ns), Ok((m, _))) => same_seq(nodes_model(ns@), m, base),
        (Err(e), Err(f)) => e.line == f.0 && e.msg@ == f.1,
        _ => false,
    }
}

pub open spec fn node_agrees(r: Result<Node, ParseError>, s: Step<NodeM>, base: Option<Seq<char>>) -> bool {
    match (r, s) {
        (Ok(n), Ok((m, _))) => same_node(node_model(n), m, base),
        (Err(e), Err(f)) => e.line == f.0 && e.msg@ == f.1,
        _ => false,
    }
}

pub open spec fn if_agrees(r: Result<IfNode, ParseError>, s: Step<NodeM>, base: Option<Seq<char>>) -> bool {
    match (r, s) {
        (Ok(n), Ok((m, _))) => same_node(NodeM::If(if_model(n)), m, base),
        (Err(e), Err(f)) => e.line == f.0 && e.msg@ == f.1,
        _ => false,
    }
}

impl Parser {
    /// The token lines, with their 1-based source line numbers.
    pub closed spec fn lines_model(&self) -> Lines {
        lines_view(self.lines@)
    }

    /// The index of the next token line to parse.
    pub closed spec fn pos_model(&self) -> int {
        self.pos as int
    }

    /// The base directory for relative paths.
    pub closed spec fn base_model(&self) -> Option<Seq<char>> {
        match self.base {
            Some(b) => Some(b@),
            None => None,
        }
    }

    /// Every stored line has a token and a line number of at least 1, and the
    /// position is within the lines.
    pub closed spec fn wf(&self) -> bool {
        &&& self.pos <= self.lines@.len()
        &&& self.lines@.len() <= usize::MAX
        &&& forall|i: int|
            0 <= i < self.lines@.len() ==> #[trigger] self.lines@[i].1@.len() > 0
                && self.lines@[i].0 >= 1
    }

    /// Construct a parser for `src`.
    ///
    /// `base` is the directory of the shed source file, used to resolve relative
    /// `path+` / `path-` tokens at parse time; `None` when reading from stdin.
    pub fn new(src: &str, base: Option<String>) -> (p: Parser)
        ensures
            p.lines_model() == token_lines(src@),
            p.pos_model() == 0,
            p.base_model() == (match base {
                Some(b) => Some(b@),
                None => None::<Seq<char>>,
            }),
            p.wf(),
    {
        let cs = chars_of(src);
        let bounds = line_bounds(cs.as_slice());
        let ghost segs = segments(cs@, bounds@);
        let mut lines: Vec<(usize, Vec<String>)> = Vec::new();
        let mut k: usize = 0;
        assert(segs.take(0) =~= Seq::<Seq<char>>::empty());
        while k < bounds.len()
            invariant
                k <= bounds@.len(),
                cs@ == src@,
                segs == segments(cs@, bounds@),
                segs == split_lines(src@),
                forall|j: int|
                    0 <= j < bounds@.len() ==> #[trigger] bounds@[j].0 <= bounds@[j].1 <= cs@.len(),
                lines_view(lines@) == keep_lines(segs.take(k as int)),
                forall|i: int|
                    0 <= i < lines@.len() ==> #[trigger] lines@[i].1@.len() > 0 && lines@[i].0 >= 1,
            decreases bounds@.len() - k,
        {
            let (from, to) = bounds[k];
            let end = code_end(cs.as_slice(), from, to);
            let toks = split_words(cs.as_slice(), from, end);
            let ghost l0 = lines@;
            assert(segs[k as int] == cs@.subrange(from as int, to as int));
            assert(segs.take(k + 1).drop_last() =~= segs.take(k as int));
            assert(segs.take(k + 1).last() == segs[k as int]);
            if toks.len() > 0 {
                lines.push((k + 1, toks));
                assert(lines_view(lines@) =~= lines_view(l0).push(((k + 1) as int, strs_view(toks@))));
                assert forall|i: int| 0 <= i < lines@.len() implies #[trigger] lines@[i].1@.len() > 0
                    && lines@[i].0 >= 1 by {
                    if i < l0.len() {
                        assert(lines@[i] == l0[i]);
                    }
                }
            }
            k = k + 1;
        }
        assert(segs.take(k as int) =~= segs);
        let count = lines.len();
        assert(count == lines@.len());
        Parser { lines, pos: 0, base }
    }

    /// Parse all statements from the current line to the end of input.
    ///
    /// With no base directory the statements are exactly `parse_lines`; with one,
    /// they differ at most in how relative directories were resolved.
    pub fn parse(&mut self) -> (r: Result<Vec<Node>, ParseError>)
        requires
            old(self).wf(),
        ensures
            final(self).wf(),
            final(self).lines_model() == old(self).lines_model(),
            final(self).base_model() == old(self).base_model(),
            r is Ok ==> final(self).pos_model() == old(self).lines_model().len(),
            nodes_agree(r, block_of(old(self).lines_model(), old(self).pos_model(), 0), old(self).base_model()),
            old(self).base_model() is None ==> (r matches Ok(ns) ==> parse_lines(
                old(self).lines_model(),
                old(self).pos_model(),
            ) matches Ok(m) && nodes_model(ns@) == slashed_seq(m)),
            r matches Err(e) ==> e.line >= 1,
    {
        let r = self.block(Stops::Top);
        proof {
            lemma_top_block_ends(old(self).lines_model(), old(self).pos_model());
            if old(self).base_model() is None {
                if r is Ok {
                    let m = block_of(old(self).lines_model(), old(self).pos_model(), 0)->Ok_0.0;
                    lemma_same_seq_none(nodes_model(r->Ok_0@), m);
                }
            }
        }
        r
    }

    /// Statements up to a line whose first token `stops` names, or the end of input.
    fn block(&mut self, stops: Stops) -> (r: Result<Vec<Node>, ParseError>)
        requires
            old(self).wf(),
        ensures
            final(self).wf(),
            final(self).lines@ == old(self).lines@,
            final(self).base == old(self).base,
            nodes_agree(r, block_of(old(self).lines_model(), old(self).pos as int, stops_code(stops)), old(self).base_model()),
            r is Ok ==> final(self).pos == block_of(old(self).lines_model(), old(self).pos as int, stops_code(stops))->Ok_0.1,
            r is Ok ==> old(self).pos <= final(self).pos <= old(self).lines@.len(),
            r matches Err(e) ==> e.line >= 1,
        decreases old(self).lines@.len() - old(self).pos, 1nat,
    {
        let ghost ls = self.lines_model();
        let ghost base = self.base_model();
        let ghost start = self.pos as int;
        let ghost code = stops_code(stops);
        let ghost lines0 = self.lines@;
        let ghost base0 = self.base;
        let mut nodes: Vec<Node> = Vec::new();
        let ghost mut planned: Seq<NodeM> = Seq::empty();
        assert(planned + block_of(ls, start, code)->Ok_0.0 =~= block_of(ls, start, code)->Ok_0.0);
        loop
            invariant
                self.wf(),
                self.lines@ == lines0,
                self.base == base0,
                ls == self.lines_model(),
                base == self.base_model(),
                lines0 == old(self).lines@,
                base0 == old(self).base,
                start == old(self).pos,
                code == stops_code(stops),
                start <= self.pos <= self.lines@.len(),
                same_seq(nodes_model(nodes@), planned, base),
                block_of(ls, start, code) == match block_of(ls, self.pos as int, code) {
                    Ok((xs, q)) => Ok((planned + xs, q)),
                    Err(e) => Err(e),
                },
            ensures
                self.wf(),
                self.lines@ == lines0,
                self.base == base0,
                start <= self.pos <= self.lines@.len(),
                same_seq(nodes_model(nodes@), planned, base),
                block_of(ls, self.pos as int, code) == Ok::<(Seq<NodeM>, int), Failure>((Seq::empty(), self.pos as int)),
                block_of(ls, start, code) == match block_of(ls, self.pos as int, code) {
                    Ok((xs, q)) => Ok((planned + xs, q)),
                    Err(e) => Err(e),
                },
            decreases self.lines@.len() - self.pos,
        {
            let stop = match self.peek() {
                None => true,
                Some((_, t)) => {
                    assert(t@.len() > 0);
                    assert(ls[self.pos as int].1 == strs_view(t@));
                    is_stop(stops, t[0].as_str())
                },
            };
            if stop {
                break;
            }
            let ghost pos0 = self.pos as int;
            match self.parse_statement() {
                Err(e) => return Err(e),
                Ok(n) => {
                    let ghost m = statement_of(ls, pos0)->Ok_0.0;
                    let ghost n0 = nodes@;
                    nodes.push(n);
                    proof {
                        assert(nodes@.drop_last() =~= n0);
                        assert(nodes_model(nodes@).drop_last() =~= nodes_model(n0));
                        assert(nodes_model(nodes@).last() == node_model(n));
                        let ghost old_planned = planned;
                        planned = planned.push(m);
                        assert(planned.drop_last() =~= old_planned);
                        match block_of(ls, self.pos as int, code) {
                            Ok((xs, q)) => {
                                assert(old_planned + (seq![m] + xs) =~= planned + xs);
                            },
                            Err(e) => {},
                        }
                    }
                },
            }
        }
        proof {
            assert(planned + Seq::<NodeM>::empty() =~= planned);
        }
        Ok(nodes)
    }

    /// The statement on the current line (an `if` takes its whole block).
    fn parse_statement(&mut self) -> (r: Result<Node, ParseError>)
        requires
            old(self).wf(),
            old(self).pos < old(self).lines@.len(),
        ensures
            final(self).wf(),
            final(self).lines@ == old(self).lines@,
            final(self).base == old(self).base,
            node_agrees(r, statement_of(old(self).lines_model(), old(self).pos as int), old(self).base_model()),
            r is Ok ==> final(self).pos == statement_of(old(self).lines_model(), old(self).pos as int)->Ok_0.1,
            r is Ok ==> old(self).pos < final(self).pos <= old(self).lines@.len(),
            r matches Err(e) ==> e.line >= 1,
        decreases old(self).lines@.len() - old(self).pos, 0nat,
    {
        let ghost ls = self.lines_model();
        let ln = self.lines[self.pos].0;
        let toks = &self.lines[self.pos].1;
        assert(toks@.len() > 0 && ln >= 1);
        let ghost t = strs_view(toks@);
        assert(ls[self.pos as int] == (ln as int, t));
        let kw = toks[0].as_str();
        assert(kw@ == t[0]);
        let node = if same_text(kw, "set") {
            let key = match tok(toks.as_slice(), 1, ln, "usage: set KEY VALUE") {
                Ok(k) => k,
                Err(e) => return Err(e),
            };
            let val = match tail_stripped(toks.as_slice(), 2) {
                Some(v) => v,
                None => return Err(ParseError::at(ln, String::from_str("usage: set KEY VALUE"))),
            };
            Node::SetEnv { key, val }
        } else if same_text(kw, "path+") || same_text(kw, "path-") {
            let direction = if same_text(kw, "path+") {
                PathDir::Prepend
            } else {
                PathDir::Append
            };
            let mut msg = String::from_str("usage: ");
            msg.append(kw);
            msg.append(" DIR");
            let raw = match tok_stripped(toks.as_slice(), 1, ln, msg.as_str()) {
                Ok(r) => r,
                Err(e) => return Err(e),
            };
            let b: Option<&str> = match &self.base {
                Some(x) => Some(x.as_str()),
                None => None,
            };
            let dir = resolve_path(raw.as_str(), b);
            Node::Path { dir, direction }
        } else if same_text(kw, "call") {
            let cmd = match tok_stripped(toks.as_slice(), 1, ln, "usage: call CMD [ARGS]") {
                Ok(c) => c,
                Err(e) => return Err(e),
            };
            let args = match tail_joined(toks.as_slice(), 2) {
                Some(a) => a,
                None => String::new(),
            };
            Node::Call { cmd, args }
        } else if same_text(kw, "alias") {
            let name = match tok(toks.as_slice(), 1, ln, "usage: alias NAME BODY") {
                Ok(n) => n,
                Err(e) => return Err(e),
            };
            let body = match tail_stripped(toks.as_slice(), 2) {
                Some(b) => b,
                None => return Err(ParseError::at(ln, String::from_str("usage: alias NAME BODY"))),
            };
            Node::Alias { name, body }
        } else if same_text(kw, "if") {
            if toks.len() < 2 {
                return Err(ParseError::at(ln, String::from_str("usage: if <cond-type> <value>")));
            }
            let n = toks.len();
            assert(strs_view(toks@.subrange(1, n as int)) =~= t.drop_first());
            let cond = match Self::parse_cond(ln, vstd::slice::slice_subrange(toks.as_slice(), 1, n)) {
                Ok(c) => c,
                Err(e) => return Err(e),
            };
            self.pos = self.pos + 1;
            return match self.parse_if(ln, cond) {
                Ok(i) => Ok(Node::If(i)),
                Err(e) => Err(e),
            };
        } else {
            let mut m = String::from_str("unknown keyword ");
            let q = debug_quoted(kw);
            m.append(q.as_str());
            return Err(ParseError::at(ln, m));
        };
        self.pos = self.pos + 1;
        Ok(node)
    }

    /// The rest of an `if` block opened on line `if_ln` with condition `cond`:
    /// body, `elif` branches, `else` branch, `end`.
    fn parse_if(&mut self, if_ln: usize, cond: Cond) -> (r: Result<IfNode, ParseError>)
        requires
            old(self).wf(),
            if_ln >= 1,
        ensures
            final(self).wf(),
            final(self).lines@ == old(self).lines@,
            final(self).base == old(self).base,
            if_agrees(r, if_of(old(self).lines_model(), old(self).pos as int, if_ln as int, cond_model(cond)), old(self).base_model()),
            r is Ok ==> final(self).pos == if_of(old(self).lines_model(), old(self).pos as int, if_ln as int, cond_model(cond))->Ok_0.1,
            r is Ok ==> old(self).pos <= final(self).pos <= old(self).lines@.len(),
            r matches Err(e) ==> e.line >= 1,
        decreases old(self).lines@.len() - old(self).pos, 3nat,
    {
        let ghost ls = self.lines_model();
        let ghost start = self.pos as int;
        let ghost cm = cond_model(cond);
        let body = match self.block(Stops::Branch) {
            Ok(b) => b,
            Err(e) => return Err(e),
        };
        let ghost bm = block_of(ls, start, 1)->Ok_0.0;
        let node = IfNode { cond, body, elifs: Vec::new(), else_: Vec::new() };
        let ghost planned = IfM { cond: cm, body: bm, elifs: Seq::empty(), else_: Seq::empty() };
        assert(elifs_model(node.elifs@) =~= Seq::<(CondM, Seq<NodeM>)>::empty());
        assert(nodes_model(node.else_@) =~= Seq::<NodeM>::empty());
        assert(same_node(NodeM::If(if_model(node)), NodeM::If(planned), self.base_model()));
        self.parse_tail(if_ln, node, Ghost(planned))
    }

    /// The `elif` / `else` branches and the closing `end` of an `if` block opened on
    /// line `if_ln`, added to `node` (whose model, up to resolved directories, is `planned`).
    fn parse_tail(&mut self, if_ln: usize, node: IfNode, Ghost(planned): Ghost<IfM>) -> (r: Result<IfNode, ParseError>)
        requires
            old(self).wf(),
            if_ln >= 1,
            same_node(NodeM::If(if_model(node)), NodeM::If(planned), old(self).base_model()),
        ensures
            final(self).wf(),
            final(self).lines@ == old(self).lines@,
            final(self).base == old(self).base,
            if_agrees(r, if_tail(old(self).lines_model(), old(self).pos as int, if_ln as int, planned), old(self).base_model()),
            r is Ok ==> final(self).pos == if_tail(old(self).lines_model(), old(self).pos as int, if_ln as int, planned)->Ok_0.1,
            r is Ok ==> old(self).pos < final(self).pos <= old(self).lines@.len(),
            r matches Err(e) ==> e.line >= 1,
        decreases old(self).lines@.len() - old(self).pos, 2nat,
    {
        let ghost ls = self.lines_model();
        let ghost base = self.base_model();
        let ghost pos0 = self.pos as int;
        let (ln, t) = match self.peek() {
            None => {
                return Err(ParseError::at(if_ln, String::from_str("unterminated if-block (missing 'end')")));
            },
            Some(p) => p,
        };
        let ghost tv = strs_view(t@);
        assert(ls[pos0] == (ln as int, tv));
        assert(t@.len() > 0 && ln >= 1);
        let kw = t[0].as_str();
        assert(kw@ == tv[0]);
        if same_text(kw, "end") {
            self.pos = self.pos + 1;
            Ok(node)
        } else if same_text(kw, "elif") {
            if t.len() < 2 {
                return Err(ParseError::at(ln, String::from_str("elif requires a condition")));
            }
            let n = t.len();
            assert(strs_view(t@.subrange(1, n as int)) =~= tv.drop_first());
            let c = match Self::parse_cond(ln, vstd::slice::slice_subrange(t, 1, n)) {
                Ok(c) => c,
                Err(e) => return Err(e),
            };
            let ghost ccm = cond_model(c);
            self.pos = self.pos + 1;
            let ghost p1 = self.pos as int;
            let b = match self.block(Stops::Branch) {
                Ok(b) => b,
                Err(e) => return Err(e),
            };
            let ghost pb = block_of(ls, p1, 1)->Ok_0.0;
            let ghost e0 = node.elifs@;
            let ghost bmod = nodes_model(b@);
            assert(same_seq(bmod, pb, base));
            let mut node = node;
            node.elifs.push((c, b));
            let ghost next = IfM { elifs: planned.elifs.push((ccm, pb)), ..planned };
            proof {
                let em = elifs_model(node.elifs@);
                assert(node.elifs@.drop_last() =~= e0);
                assert(em.drop_last() =~= elifs_model(e0));
                assert(em.last() == (ccm, bmod));
                assert(next.elifs.drop_last() =~= planned.elifs);
                assert(same_branches(em, next.elifs, base));
            }
            self.parse_tail(if_ln, node, Ghost(next))
        } else if same_text(kw, "else") {
            self.pos = self.pos + 1;
            let ghost p1 = self.pos as int;
            let b = match self.block(Stops::End) {
                Ok(b) => b,
                Err(e) => return Err(e),
            };
            let mut node = node;
            node.else_ = b;
            let ghost next = IfM { else_: block_of(ls, p1, 2)->Ok_0.0, ..planned };
            assert(same_node(NodeM::If(if_model(node)), NodeM::If(next), base));
            self.parse_tail(if_ln, node, Ghost(next))
        } else {
            let mut m = String::from_str("unexpected ");
            let q = debug_quoted(kw);
            m.append(q.as_str());
            m.append(" inside if-block");
            Err(ParseError::at(ln, m))
        }
    }

    /// `(line_number, tokens)` of the current line, without advancing.
    fn peek(&self) -> (r: Option<(usize, &[String])>)
        ensures
            self.pos < self.lines@.len() ==> (r matches Some(p) && p.0 == self.lines@[self.pos as int].0
                && p.1@ == self.lines@[self.pos as int].1@),
            self.pos >= self.lines@.len() ==> r is None,
    {
        if self.pos < self.lines.len() {
            let (ln, t) = &self.lines[self.pos];
            Some((*ln, t.as_slice()))
        } else {
            None
        }
    }

    /// Parse the condition written by `toks` on line `ln`.
    fn parse_cond(ln: usize, toks: &[String]) -> (r: Result<Cond, ParseError>)
        ensures
            cond_agrees(r, or_cond(ln as int, strs_view(toks@))),
            r matches Err(e) ==> e.line == ln,
    {
        Self::parse_or(ln, toks)
    }

    /// Lowest precedence: `or`. Left-associative: splits at the last `or`.
    fn parse_or(ln: usize, toks: &[String]) -> (r: Result<Cond, ParseError>)
        ensures
            cond_agrees(r, or_cond(ln as int, strs_view(toks@))),
            r matches Err(e) ==> e.line == ln,
        decreases toks@.len(), 3nat,
    {
        let ghost t = strs_view(toks@);
        proof {
            reveal_strlit("or");
        }
        match last_op_pos(toks, "or") {
            Some(op) => {
                proof {
                    let c = choose|i: int| is_last_op(t, "or"@, i);
                    lemma_last_op_unique(t, "or"@, c, op as int);
                    assert(strs_view(toks@.subrange(0, op as int)) =~= t.take(op as int));
                    assert(strs_view(toks@.subrange(op + 1, toks@.len() as int)) =~= t.skip(op + 1));
                }
                let left = match Self::parse_or(ln, vstd::slice::slice_subrange(toks, 0, op)) {
                    Ok(c) => c,
                    Err(e) => return Err(e),
                };
                let n = toks.len();
                assert(op + 1 < n);
                let right = match Self::parse_and(ln, vstd::slice::slice_subrange(toks, op + 1, n)) {
                    Ok(c) => c,
                    Err(e) => return Err(e),
                };
                Ok(Cond::Or(Box::new(left), Box::new(right)))
            },
            None => Self::parse_and(ln, toks),
        }
    }

    /// Medium precedence: `and`. Left-associative: splits at the last `and`.
    fn parse_and(ln: usize, toks: &[String]) -> (r: Result<Cond, ParseError>)
        ensures
            cond_agrees(r, and_cond(ln as int, strs_view(toks@))),
            r matches Err(e) ==> e.line == ln,
        decreases toks@.len(), 2nat,
    {
        let ghost t = strs_view(toks@);
        proof {
            reveal_strlit("and");
        }
        match last_op_pos(toks, "and") {
            Some(op) => {
                proof {
                    let c = choose|i: int| is_last_op(t, "and"@, i);
                    lemma_last_op_unique(t, "and"@, c, op as int);
                    assert(strs_view(toks@.subrange(0, op as int)) =~= t.take(op as int));
                    assert(strs_view(toks@.subrange(op + 1, toks@.len() as int)) =~= t.skip(op + 1));
                }
                let left = match Self::parse_and(ln, vstd::slice::slice_subrange(toks, 0, op)) {
                    Ok(c) => c,
                    Err(e) => return Err(e),
                };
                let n = toks.len();
                assert(op + 1 < n);
                let right = match Self::parse_not(ln, vstd::slice::slice_subrange(toks, op + 1, n)) {
                    Ok(c) => c,
                    Err(e) => return Err(e),
                };
                Ok(Cond::And(Box::new(left), Box::new(right)))
            },
            None => Self::parse_not(ln, toks),
        }
    }

    /// Highest precedence: prefix `not`.
    fn parse_not(ln: usize, toks: &[String]) -> (r: Result<Cond, ParseError>)
        ensures
            cond_agrees(r, not_cond(ln as int, strs_view(toks@))),
            r matches Err(e) ==> e.line == ln,
        decreases toks@.len(), 1nat,
    {
        let ghost t = strs_view(toks@);
        if toks.len() > 0 && same_text(toks[0].as_str(), "not") {
            if toks.len() < 2 {
                return Err(ParseError::at(ln, String::from_str("'not' requires a condition")));
            }
            assert(strs_view(toks@.subrange(1, toks@.len() as int)) =~= t.drop_first());
            let inner = match Self::parse_not(ln, vstd::slice::slice_subrange(toks, 1, toks.len())) {
                Ok(c) => c,
                Err(e) => return Err(e),
            };
            return Ok(Cond::Not(Box::new(inner)));
        }
        Self::parse_leaf(ln, toks)
    }

    /// Parse a leaf condition: `<type> <value>`.
    fn parse_leaf(ln: usize, toks: &[String]) -> (r: Result<Cond, ParseError>)
        ensures
            cond_agrees(r, leaf_cond(ln as int, strs_view(toks@))),
            r matches Err(e) ==> e.line == ln,
    {
        if toks.len() == 0 {
            return Err(ParseError::at(ln, String::from_str("condition requires a type")));
        }
        let kind = toks[0].as_str();
        let mut msg = String::from_str(kind);
        msg.append(" requires a value");
        let val = match tok_stripped(toks, 1, ln, msg.as_str()) {
            Ok(v) => v,
            Err(e) => return Err(e),
        };
        if same_text(kind, "have") {
            Ok(Cond::Have(val))
        } else if same_text(kind, "exists") {
            // A filesystem path: same variable guard and `/` normalisation as `path+`.
            Ok(Cond::Exists(resolve_path(val.as_str(), None)))
        } else if same_text(kind, "env") {
            Ok(Cond::Env(val))
        } else if same_text(kind, "os") {
            Ok(Cond::Os(val))
        } else if same_text(kind, "shell") {
            Ok(Cond::Shell(val))
        } else {
            let mut m = String::from_str("unknown condition ");
            let q = debug_quoted(kind);
            m.append(q.as_str());
            m.append(" -- use: have | exists | env | os | shell");
            Err(ParseError::at(ln, m))
        }
    }
}

} // verus!
