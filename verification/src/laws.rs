//! Laws stated directly over inputs and results: what path resolution keeps
//! for the shell, how `or` chains group, and the exact text each back end
//! writes for a statement or a condition.
use vstd::prelude::*;
use crate::ast::{CondM, IfM, NodeM, PathDir};
use crate::parser::{
    Lines, block_of, if_tail, stops_at, dir_ok, leaf_cond, or_cond, is_last_op, op_at, and_cond, not_cond, statement_of, unquote, is_sep,
    relative_token, rooted, unprefixed, joinable_base,
};
use crate::text::join_with;
use crate::text::forward_slashes;
use crate::emit::{
    Style, block_lines, branch_lines, call_word, cond_text, if_lines, indented, leaf_text, script, style_for,
    style_name, unknown_shell,
};
use crate::ast::error_text;
use crate::text::{decimal, split_lines, words, is_ws, code_part, replace_all, trim, trim_start, trim_end};
use crate::prune::{Fold, HostOs, fold_cond};

verus! {

// ── path tokens left to the shell ───────────────────────────────────────────

/// A path token that starts with `~` is left for the shell: whatever the base
/// directory (or none), the directory stored for it is the token with `\`
/// turned into `/` and nothing else; it is never joined onto the base.
pub proof fn tilde_token_never_joined(got: Seq<char>, t: Seq<char>, base: Option<Seq<char>>)
    requires
        t.len() > 0,
        t[0] == '~',
        dir_ok(got, t, base),
    ensures
        got == forward_slashes(t),
{
}

/// A path token that holds a `$` anywhere (`$HOME/bin`, `${X}/bin`,
/// `$env:USERPROFILE/bin`) is left for the shell: whatever the base directory,
/// the directory stored for it is the token with `\` turned into `/`.
pub proof fn variable_token_never_joined(got: Seq<char>, t: Seq<char>, base: Option<Seq<char>>)
    requires
        t.contains('$'),
        dir_ok(got, t, base),
    ensures
        got == forward_slashes(t),
{
}

/// A relative token (not empty, no leading separator, no `:`) not left to the
/// shell is joined onto a joinable base directory: the base, one `/` unless
/// the base already ends in `/`, and the token, with `\` turned into `/`.
/// The base comes first and the token after it.
pub proof fn relative_token_joined(got: Seq<char>, t: Seq<char>, b: Seq<char>)
    requires
        relative_token(t),
        !t.contains('$'),
        t[0] != '~',
        joinable_base(b),
        !is_sep(b.last()),
        dir_ok(got, t, Some(b)),
    ensures
        got == forward_slashes(b) + seq!['/'] + forward_slashes(t),
{
}

/// Under a joinable base that already ends in `/`, a relative token (not left
/// to the shell) is appended right after it.
pub proof fn relative_token_after_slash(got: Seq<char>, t: Seq<char>, b: Seq<char>)
    requires
        relative_token(t),
        !t.contains('$'),
        t[0] != '~',
        joinable_base(b),
        b.last() == '/',
        dir_ok(got, t, Some(b)),
    ensures
        got == forward_slashes(b) + forward_slashes(t),
{
}

/// A token rooted at `/` (no `:`, not `//`) not left to the shell is kept as
/// written under a base without a prefix: an absolute directory is never
/// joined onto the base.
pub proof fn rooted_token_kept(got: Seq<char>, t: Seq<char>, b: Seq<char>)
    requires
        rooted(t),
        !t.contains('$'),
        unprefixed(b),
        dir_ok(got, t, Some(b)),
    ensures
        got == forward_slashes(t),
{
}

// ── statements ───────────────────────────────────────────────────────────────

proof fn lemma_keywords_differ()
    ensures
        "set"@ != "path+"@,
        "set"@ != "path-"@,
        "path+"@ != "path-"@,
        "call"@ != "set"@,
        "call"@ != "path+"@,
        "call"@ != "path-"@,
        "alias"@ != "set"@,
        "alias"@ != "path+"@,
        "alias"@ != "path-"@,
        "alias"@ != "call"@,
{
    reveal_strlit("set");
    reveal_strlit("path+");
    reveal_strlit("path-");
    reveal_strlit("call");
    reveal_strlit("alias");
    assert("set"@.len() != "path+"@.len());
    assert("set"@.len() != "path-"@.len());
    assert("path+"@[4] != "path-"@[4]);
    assert("call"@.len() != "set"@.len());
    assert("call"@.len() != "path+"@.len());
    assert("call"@.len() != "path-"@.len());
    assert("alias"@.len() != "set"@.len());
    assert("alias"@[0] != "path+"@[0]);
    assert("alias"@[0] != "path-"@[0]);
    assert("alias"@.len() != "call"@.len());
}

/// What each statement line means, from its words: `set K w…` sets `K` to the
/// words after it joined by single spaces (one layer of whole-value quotes
/// removed); `path+ D` prepends and `path- D` appends directory `D` (quotes
/// removed); `call C w…` runs `C` with the words after it joined by spaces
/// (none when there are none); `alias N w…` aliases `N` to the words after it
/// joined by spaces (quotes removed). Each takes exactly its own line.
pub proof fn statement_shapes(ls: Lines, pos: int)
    requires
        0 <= pos < ls.len(),
        ls[pos].1.len() >= 1,
    ensures
        ls[pos].1[0] == "set"@ && ls[pos].1.len() >= 3 ==> statement_of(ls, pos) == Ok::<
            (NodeM, int),
            (int, Seq<char>),
        >(
            (
                NodeM::SetEnv {
                    key: ls[pos].1[1],
                    val: unquote(join_with(ls[pos].1.skip(2), " "@)),
                },
                pos + 1,
            ),
        ),
        ls[pos].1[0] == "path+"@ && ls[pos].1.len() >= 2 ==> statement_of(ls, pos) == Ok::<
            (NodeM, int),
            (int, Seq<char>),
        >((NodeM::Path { dir: unquote(ls[pos].1[1]), direction: PathDir::Prepend }, pos + 1)),
        ls[pos].1[0] == "path-"@ && ls[pos].1.len() >= 2 ==> statement_of(ls, pos) == Ok::<
            (NodeM, int),
            (int, Seq<char>),
        >((NodeM::Path { dir: unquote(ls[pos].1[1]), direction: PathDir::Append }, pos + 1)),
        ls[pos].1[0] == "call"@ && ls[pos].1.len() >= 3 ==> statement_of(ls, pos) == Ok::<
            (NodeM, int),
            (int, Seq<char>),
        >(
            (
                NodeM::Call {
                    cmd: unquote(ls[pos].1[1]),
                    args: join_with(ls[pos].1.skip(2), " "@),
                },
                pos + 1,
            ),
        ),
        ls[pos].1[0] == "call"@ && ls[pos].1.len() == 2 ==> statement_of(ls, pos) == Ok::<
            (NodeM, int),
            (int, Seq<char>),
        >((NodeM::Call { cmd: unquote(ls[pos].1[1]), args: Seq::empty() }, pos + 1)),
        ls[pos].1[0] == "alias"@ && ls[pos].1.len() >= 3 ==> statement_of(ls, pos) == Ok::<
            (NodeM, int),
            (int, Seq<char>),
        >(
            (
                NodeM::Alias {
                    name: ls[pos].1[1],
                    body: unquote(join_with(ls[pos].1.skip(2), " "@)),
                },
                pos + 1,
            ),
        ),
{
    lemma_keywords_differ();
}

/// A line holding one plain statement with the words it needs: `set K V…`,
/// `path+ D`, `path- D`, `call C…` or `alias N B…`.
pub open spec fn simple_line(t: Seq<Seq<char>>) -> bool {
    ||| t.len() >= 3 && (t[0] == "set"@ || t[0] == "alias"@)
    ||| t.len() >= 2 && (t[0] == "path+"@ || t[0] == "path-"@ || t[0] == "call"@)
}

/// The statement a plain statement line means (see `statement_shapes`).
pub open spec fn simple_of(t: Seq<Seq<char>>) -> NodeM {
    if t[0] == "set"@ {
        NodeM::SetEnv { key: t[1], val: unquote(join_with(t.skip(2), " "@)) }
    } else if t[0] == "path+"@ {
        NodeM::Path { dir: unquote(t[1]), direction: PathDir::Prepend }
    } else if t[0] == "path-"@ {
        NodeM::Path { dir: unquote(t[1]), direction: PathDir::Append }
    } else if t[0] == "call"@ {
        NodeM::Call {
            cmd: unquote(t[1]),
            args: if t.len() > 2 {
                join_with(t.skip(2), " "@)
            } else {
                Seq::empty()
            },
        }
    } else {
        NodeM::Alias { name: t[1], body: unquote(join_with(t.skip(2), " "@)) }
    }
}

/// The statements of plain lines `p..q`, in order.
pub open spec fn simple_seq(ls: Lines, p: int, q: int) -> Seq<NodeM> {
    Seq::new((q - p) as nat, |i: int| simple_of(ls[p + i].1))
}

proof fn lemma_block_words_differ()
    ensures
        "end"@ != "elif"@,
        "end"@ != "else"@,
        "elif"@ != "else"@,
        "if"@ != "set"@,
        "if"@ != "path+"@,
        "if"@ != "path-"@,
        "if"@ != "call"@,
        "if"@ != "alias"@,
        forall|kw: Seq<char>, st: int|
            (kw == "set"@ || kw == "path+"@ || kw == "path-"@ || kw == "call"@ || kw == "alias"@)
                ==> !#[trigger] stops_at(st, kw),
{
    reveal_strlit("end");
    reveal_strlit("elif");
    reveal_strlit("else");
    reveal_strlit("if");
    reveal_strlit("set");
    reveal_strlit("path+");
    reveal_strlit("path-");
    reveal_strlit("call");
    reveal_strlit("alias");
    assert("end"@.len() != "elif"@.len());
    assert("end"@.len() != "else"@.len());
    assert("elif"@[2] != "else"@[2]);
    assert("if"@.len() != "set"@.len());
    assert("if"@.len() != "path+"@.len());
    assert("if"@.len() != "path-"@.len());
    assert("if"@.len() != "call"@.len());
    assert("if"@.len() != "alias"@.len());
    assert("set"@[0] != "end"@[0]);
    assert("set"@.len() != "elif"@.len());
    assert("set"@.len() != "else"@.len());
    assert("call"@[0] != "elif"@[0]);
    assert("call"@[0] != "else"@[0]);
    assert("call"@.len() != "end"@.len());
    assert("path+"@.len() != "end"@.len());
    assert("path+"@.len() != "elif"@.len());
    assert("path+"@.len() != "else"@.len());
    assert("path-"@.len() != "end"@.len());
    assert("path-"@.len() != "elif"@.len());
    assert("path-"@.len() != "else"@.len());
    assert("alias"@.len() != "end"@.len());
    assert("alias"@.len() != "elif"@.len());
    assert("alias"@.len() != "else"@.len());
}

/// Plain statement lines up to a line that ends the block (or the end of the
/// input) parse to their statements, in order, and the block stops there.
pub proof fn plain_lines_parse(ls: Lines, p: int, q: int, stops: int)
    requires
        0 <= p <= q <= ls.len(),
        forall|i: int| p <= i < q ==> simple_line(#[trigger] ls[i].1),
        q < ls.len() ==> ls[q].1.len() >= 1 && stops_at(stops, ls[q].1[0]),
    ensures
        block_of(ls, p, stops) == Ok::<(Seq<NodeM>, int), (int, Seq<char>)>((simple_seq(ls, p, q), q)),
    decreases q - p,
{
    lemma_block_words_differ();
    lemma_keywords_differ();
    if p == q {
        assert(simple_seq(ls, p, q) =~= Seq::<NodeM>::empty());
    } else {
        let t = ls[p].1;
        assert(simple_line(ls[p].1));
        assert(!stops_at(stops, t[0]));
        statement_shapes(ls, p);
        assert(statement_of(ls, p) == Ok::<(NodeM, int), (int, Seq<char>)>((simple_of(t), p + 1)));
        plain_lines_parse(ls, p + 1, q, stops);
        assert(seq![simple_of(t)] + simple_seq(ls, p + 1, q) =~= simple_seq(ls, p, q));
    }
}

/// An `if` block whose body is plain statement lines parses to an `if` with
/// that condition and those statements, in order: closed by `end` directly,
/// after one `elif` branch, or after an `else` branch; the statement ends after
/// the `end` line.
pub proof fn if_blocks_parse(ls: Lines, pos: int, q: int, r: int, cm: CondM, cm2: CondM)
    requires
        0 <= pos < q < ls.len(),
        ls[pos].1.len() >= 2,
        ls[pos].1[0] == "if"@,
        or_cond(ls[pos].0, ls[pos].1.drop_first()) == Ok::<CondM, (int, Seq<char>)>(cm),
        forall|i: int| pos < i < q ==> simple_line(#[trigger] ls[i].1),
        ls[q].1.len() >= 1,
    ensures
        ls[q].1[0] == "end"@ ==> statement_of(ls, pos) == Ok::<(NodeM, int), (int, Seq<char>)>(
            (
                NodeM::If(
                    IfM {
                        cond: cm,
                        body: simple_seq(ls, pos + 1, q),
                        elifs: Seq::empty(),
                        else_: Seq::empty(),
                    },
                ),
                q + 1,
            ),
        ),
        (ls[q].1[0] == "else"@ && q < r < ls.len() && ls[r].1.len() >= 1 && ls[r].1[0] == "end"@
            && (forall|i: int| q < i < r ==> simple_line(#[trigger] ls[i].1))) ==> statement_of(
            ls,
            pos,
        ) == Ok::<(NodeM, int), (int, Seq<char>)>(
            (
                NodeM::If(
                    IfM {
                        cond: cm,
                        body: simple_seq(ls, pos + 1, q),
                        elifs: Seq::empty(),
                        else_: simple_seq(ls, q + 1, r),
                    },
                ),
                r + 1,
            ),
        ),
        (ls[q].1[0] == "elif"@ && ls[q].1.len() >= 2 && or_cond(ls[q].0, ls[q].1.drop_first())
            == Ok::<CondM, (int, Seq<char>)>(cm2) && q < r < ls.len() && ls[r].1.len() >= 1
            && ls[r].1[0] == "end"@ && (forall|i: int| q < i < r ==> simple_line(#[trigger] ls[i].1)))
            ==> statement_of(ls, pos) == Ok::<(NodeM, int), (int, Seq<char>)>(
            (
                NodeM::If(
                    IfM {
                        cond: cm,
                        body: simple_seq(ls, pos + 1, q),
                        elifs: seq![(cm2, simple_seq(ls, q + 1, r))],
                        else_: Seq::empty(),
                    },
                ),
                r + 1,
            ),
        ),
{
    lemma_block_words_differ();
    let ln = ls[pos].0;
    let kw = ls[q].1[0];
    if kw == "end"@ || kw == "else"@ || kw == "elif"@ {
        plain_lines_parse(ls, pos + 1, q, 1);
        let node = IfM {
            cond: cm,
            body: simple_seq(ls, pos + 1, q),
            elifs: Seq::empty(),
            else_: Seq::empty(),
        };
        assert(crate::parser::if_of(ls, pos + 1, ln, cm) == if_tail(ls, q, ln, node));
        if kw == "else"@ && q < r < ls.len() && ls[r].1.len() >= 1 && ls[r].1[0] == "end"@ && (
        forall|i: int| q < i < r ==> simple_line(#[trigger] ls[i].1)) {
            plain_lines_parse(ls, q + 1, r, 2);
            let n2 = IfM { else_: simple_seq(ls, q + 1, r), ..node };
            assert(if_tail(ls, q, ln, node) == if_tail(ls, r, ln, n2));
        }
        if kw == "elif"@ && ls[q].1.len() >= 2 && or_cond(ls[q].0, ls[q].1.drop_first()) == Ok::<
            CondM,
            (int, Seq<char>),
        >(cm2) && q < r < ls.len() && ls[r].1.len() >= 1 && ls[r].1[0] == "end"@ && (forall|i: int|
            q < i < r ==> simple_line(#[trigger] ls[i].1)) {
            plain_lines_parse(ls, q + 1, r, 1);
            let n2 = IfM { elifs: node.elifs.push((cm2, simple_seq(ls, q + 1, r))), ..node };
            assert(node.elifs.push((cm2, simple_seq(ls, q + 1, r))) =~= seq![
                (cm2, simple_seq(ls, q + 1, r)),
            ]);
            assert(if_tail(ls, q, ln, node) == if_tail(ls, r, ln, n2));
        }
    }
}

// ── `or` chains ──────────────────────────────────────────────────────────────

/// One of the five leaf condition kinds.
pub open spec fn leaf_kind(k: Seq<char>) -> bool {
    k == "have"@ || k == "exists"@ || k == "env"@ || k == "os"@ || k == "shell"@
}

/// The tokens of leaf conditions `ls` (each a kind and a value), in order,
/// with `or` between consecutive ones.
pub open spec fn or_tokens(ls: Seq<(Seq<char>, Seq<char>)>) -> Seq<Seq<char>>
    decreases ls.len(),
{
    if ls.len() == 0 {
        Seq::empty()
    } else if ls.len() == 1 {
        seq![ls[0].0, ls[0].1]
    } else {
        or_tokens(ls.drop_last()) + seq!["or"@, ls.last().0, ls.last().1]
    }
}

/// The `or` of conditions `cs`, grouped to the left: `Or(Or(c0, c1), c2)`.
pub open spec fn or_chain(cs: Seq<CondM>) -> CondM
    decreases cs.len(),
{
    if cs.len() <= 1 {
        cs[0]
    } else {
        CondM::Or(Box::new(or_chain(cs.drop_last())), Box::new(cs.last()))
    }
}

/// The condition that leaf `l` (kind and value) parses to on line `ln`.
pub open spec fn leaf_of(ln: int, l: (Seq<char>, Seq<char>)) -> CondM {
    leaf_cond(ln, seq![l.0, l.1])->Ok_0
}

/// A leaf kind is none of the operator words.
proof fn lemma_kind_not_operator(k: Seq<char>)
    requires
        leaf_kind(k),
    ensures
        k != "or"@,
        k != "and"@,
        k != "not"@,
{
    reveal_strlit("or");
    reveal_strlit("and");
    reveal_strlit("not");
    reveal_strlit("have");
    reveal_strlit("exists");
    reveal_strlit("env");
    reveal_strlit("os");
    reveal_strlit("shell");
    assert("or"@[1] != "os"@[1]);
    assert("and"@[0] != "env"@[0]);
    assert("not"@[0] != "env"@[0]);
    assert("and"@.len() != "have"@.len());
    assert("not"@.len() != "shell"@.len());
}

/// A single leaf `kind value` parses to that leaf.
proof fn lemma_single_leaf(ln: int, k: Seq<char>, v: Seq<char>)
    requires
        leaf_kind(k),
    ensures
        or_cond(ln, seq![k, v]) == leaf_cond(ln, seq![k, v]),
        leaf_cond(ln, seq![k, v]) is Ok,
{
    lemma_kind_not_operator(k);
    let t = seq![k, v];
    assert(!exists|i: int| is_last_op(t, "or"@, i));
    assert(!exists|i: int| is_last_op(t, "and"@, i));
    assert(t[0] != "not"@);
}

/// Every leaf condition written on a line joined by `or` occurs in the parsed
/// condition, in the order written, grouped to the left: `A or B or C` parses
/// to `Or(Or(A, B), C)`.
pub proof fn or_chain_parses(ln: int, ls: Seq<(Seq<char>, Seq<char>)>)
    requires
        ls.len() >= 1,
        forall|i: int| 0 <= i < ls.len() ==> leaf_kind(#[trigger] ls[i].0),
    ensures
        or_cond(ln, or_tokens(ls)) == Ok::<CondM, (int, Seq<char>)>(
            or_chain(ls.map_values(|l: (Seq<char>, Seq<char>)| leaf_of(ln, l))),
        ),
    decreases ls.len(),
{
    let cs = ls.map_values(|l: (Seq<char>, Seq<char>)| leaf_of(ln, l));
    if ls.len() == 1 {
        lemma_single_leaf(ln, ls[0].0, ls[0].1);
        assert(or_tokens(ls) == seq![ls[0].0, ls[0].1]);
    } else {
        let pre = ls.drop_last();
        let l = ls.last();
        assert(leaf_kind(ls[ls.len() - 1].0));
        lemma_kind_not_operator(l.0);
        or_chain_parses(ln, pre);
        lemma_single_leaf(ln, l.0, l.1);
        lemma_or_tokens_len(pre);
        let t = or_tokens(ls);
        let p = or_tokens(pre);
        let i = p.len() as int;
        assert(t == p + seq!["or"@, l.0, l.1]);
        assert(t[i] == "or"@);
        assert(t.len() == i + 3);
        assert(op_at(t, "or"@, i));
        assert forall|j: int| op_at(t, "or"@, j) implies j <= i by {
            if j > i {
                assert(j == i + 1);
                assert(t[j] == l.0);
            }
        }
        assert(is_last_op(t, "or"@, i));
        let c = choose|j: int| is_last_op(t, "or"@, j);
        assert(c == i);
        assert(t.take(i) =~= p);
        assert(t.skip(i + 1) =~= seq![l.0, l.1]);
        let r = seq![l.0, l.1];
        assert(!exists|j: int| is_last_op(r, "and"@, j));
        assert(r[0] != "not"@);
        assert(and_cond(ln, r) == not_cond(ln, r));
        assert(not_cond(ln, r) == leaf_cond(ln, r));
        assert(cs.drop_last() =~= pre.map_values(|l: (Seq<char>, Seq<char>)| leaf_of(ln, l)));
        assert(cs.last() == leaf_of(ln, l));
    }
}

proof fn lemma_or_tokens_len(ls: Seq<(Seq<char>, Seq<char>)>)
    requires
        ls.len() >= 1,
    ensures
        or_tokens(ls).len() == 3 * ls.len() - 1,
    decreases ls.len(),
{
    if ls.len() > 1 {
        lemma_or_tokens_len(ls.drop_last());
    }
}

// ── conditions: precedence and grouping ────────────────────────────────────

/// A term of a condition: a leaf (kind and value), negated by `not` or not.
pub type Term = (bool, Seq<char>, Seq<char>);

/// The tokens of a term: `[not] kind value`.
pub open spec fn term_tokens(t: Term) -> Seq<Seq<char>> {
    if t.0 {
        seq!["not"@, t.1, t.2]
    } else {
        seq![t.1, t.2]
    }
}

/// The condition a term means: its leaf, under `Not` when negated.
pub open spec fn term_of(ln: int, t: Term) -> CondM {
    if t.0 {
        CondM::Not(Box::new(leaf_of(ln, (t.1, t.2))))
    } else {
        leaf_of(ln, (t.1, t.2))
    }
}

/// Token lists `parts` joined by the operator word `op`.
pub open spec fn join_tokens(parts: Seq<Seq<Seq<char>>>, op: Seq<char>) -> Seq<Seq<char>>
    decreases parts.len(),
{
    if parts.len() == 0 {
        Seq::empty()
    } else if parts.len() == 1 {
        parts[0]
    } else {
        join_tokens(parts.drop_last(), op) + seq![op] + parts.last()
    }
}

/// The tokens of a group of terms joined by `and`.
pub open spec fn group_tokens(g: Seq<Term>) -> Seq<Seq<char>> {
    join_tokens(g.map_values(|t: Term| term_tokens(t)), "and"@)
}

/// The tokens of groups joined by `or`.
pub open spec fn expr_tokens(e: Seq<Seq<Term>>) -> Seq<Seq<char>> {
    join_tokens(e.map_values(|g: Seq<Term>| group_tokens(g)), "or"@)
}

/// The `and` of conditions `cs`, grouped to the left.
pub open spec fn and_chain(cs: Seq<CondM>) -> CondM
    decreases cs.len(),
{
    if cs.len() <= 1 {
        cs[0]
    } else {
        CondM::And(Box::new(and_chain(cs.drop_last())), Box::new(cs.last()))
    }
}

/// The condition a group means: the `and` of its terms, grouped to the left.
pub open spec fn group_of(ln: int, g: Seq<Term>) -> CondM {
    and_chain(g.map_values(|t: Term| term_of(ln, t)))
}

/// A term whose kind is a leaf kind and whose value is not the word `or`.
pub open spec fn good_term(t: Term) -> bool {
    leaf_kind(t.1) && t.2 != "or"@
}

/// A non-empty group of good terms.
pub open spec fn good_group(g: Seq<Term>) -> bool {
    g.len() >= 1 && forall|j: int| 0 <= j < g.len() ==> good_term(#[trigger] g[j])
}

proof fn lemma_term(ln: int, t: Term)
    requires
        leaf_kind(t.1),
    ensures
        not_cond(ln, term_tokens(t)) == Ok::<CondM, (int, Seq<char>)>(term_of(ln, t)),
        2 <= term_tokens(t).len() <= 3,
        forall|j: int| 0 <= j < term_tokens(t).len() - 1 ==> #[trigger] term_tokens(t)[j] != "and"@,
        t.2 != "or"@ ==> forall|j: int| 0 <= j < term_tokens(t).len() ==> #[trigger] term_tokens(t)[j] != "or"@,
{
    lemma_kind_not_operator(t.1);
    lemma_single_leaf(ln, t.1, t.2);
    reveal_strlit("not");
    reveal_strlit("and");
    reveal_strlit("or");
    let r = seq![t.1, t.2];
    assert(!exists|i: int| is_last_op(r, "or"@, i));
    assert(!exists|i: int| is_last_op(r, "and"@, i));
    assert(r[0] != "not"@);
    if t.0 {
        let tt = term_tokens(t);
        assert(tt[0] == "not"@);
        assert(tt.drop_first() =~= r);
        assert("not"@[0] != "and"@[0]);
        assert("not"@ != "or"@);
    }
}

/// Fewer than four tokens hold no binary operator.
proof fn lemma_short_no_op(t: Seq<Seq<char>>, op: Seq<char>)
    requires
        t.len() <= 3,
    ensures
        !exists|i: int| is_last_op(t, op, i),
{
}

proof fn lemma_group_len(g: Seq<Term>)
    requires
        g.len() >= 1,
        forall|j: int| 0 <= j < g.len() ==> leaf_kind(#[trigger] g[j].1),
    ensures
        group_tokens(g).len() >= 2,
    decreases g.len(),
{
    let parts = g.map_values(|t: Term| term_tokens(t));
    assert(leaf_kind(g[g.len() - 1].1));
    lemma_term(0, g.last());
    if g.len() > 1 {
        lemma_group_len(g.drop_last());
        assert(g.drop_last().map_values(|t: Term| term_tokens(t)) =~= parts.drop_last());
    }
}

/// A group's tokens parse, at `and` level, to the `and` of its terms in order.
proof fn lemma_group(ln: int, g: Seq<Term>)
    requires
        g.len() >= 1,
        forall|j: int| 0 <= j < g.len() ==> leaf_kind(#[trigger] g[j].1),
    ensures
        and_cond(ln, group_tokens(g)) == Ok::<CondM, (int, Seq<char>)>(group_of(ln, g)),
    decreases g.len(),
{
    let parts = g.map_values(|t: Term| term_tokens(t));
    let cs = g.map_values(|t: Term| term_of(ln, t));
    let last = g.last();
    assert(leaf_kind(g[g.len() - 1].1));
    lemma_term(ln, last);
    reveal_strlit("and");
    if g.len() == 1 {
        assert(group_tokens(g) == term_tokens(g[0]));
        lemma_short_no_op(term_tokens(g[0]), "and"@);
    } else {
        let pre = g.drop_last();
        lemma_group(ln, pre);
        lemma_group_len(pre);
        assert(pre.map_values(|t: Term| term_tokens(t)) =~= parts.drop_last());
        assert(pre.map_values(|t: Term| term_of(ln, t)) =~= cs.drop_last());
        let p = group_tokens(pre);
        let lt = term_tokens(last);
        let t = group_tokens(g);
        let i = p.len() as int;
        assert(t == p + seq!["and"@] + lt);
        assert(t[i] == "and"@);
        assert(op_at(t, "and"@, i));
        assert forall|j: int| op_at(t, "and"@, j) implies j <= i by {
            if j > i {
                assert(t[j] == lt[j - i - 1]);
            }
        }
        assert(is_last_op(t, "and"@, i));
        let c = choose|j: int| is_last_op(t, "and"@, j);
        assert(c == i);
        assert(t.take(i) =~= p);
        assert(t.skip(i + 1) =~= lt);
    }
}

proof fn lemma_group_no_or(g: Seq<Term>)
    requires
        good_group(g),
    ensures
        forall|j: int| 0 <= j < group_tokens(g).len() ==> #[trigger] group_tokens(g)[j] != "or"@,
    decreases g.len(),
{
    let parts = g.map_values(|t: Term| term_tokens(t));
    assert(good_term(g[g.len() - 1]));
    lemma_term(0, g.last());
    reveal_strlit("and");
    reveal_strlit("or");
    assert("and"@.len() != "or"@.len());
    if g.len() > 1 {
        let pre = g.drop_last();
        assert forall|j: int| 0 <= j < pre.len() implies good_term(#[trigger] pre[j]) by {
            assert(pre[j] == g[j]);
        }
        lemma_group_no_or(pre);
        assert(pre.map_values(|t: Term| term_tokens(t)) =~= parts.drop_last());
        let p = group_tokens(pre);
        let lt = term_tokens(g.last());
        let t = group_tokens(g);
        assert(t == p + seq!["and"@] + lt);
        assert forall|j: int| 0 <= j < t.len() implies #[trigger] t[j] != "or"@ by {
            if j < p.len() {
                assert(t[j] == p[j]);
            } else if j > p.len() {
                assert(t[j] == lt[j - p.len() - 1]);
            }
        }
    } else {
        assert(group_tokens(g) == term_tokens(g[0]));
    }
}

/// Conditions parse by precedence, every leaf kept in the order written:
/// `not` binds tightest, then `and`, then `or`, and `and` and `or` group to the
/// left. A condition written as groups of terms joined by `or`, each group
/// terms joined by `and`, each term a leaf optionally preceded by `not`,
/// parses to the left-grouped `or` of the left-grouped `and` of its terms;
/// `A or B and C` is `Or(A, And(B, C))`, `not A and B` is `And(Not(A), B)`.
pub proof fn condition_parses(ln: int, e: Seq<Seq<Term>>)
    requires
        e.len() >= 1,
        forall|i: int| 0 <= i < e.len() ==> good_group(#[trigger] e[i]),
    ensures
        or_cond(ln, expr_tokens(e)) == Ok::<CondM, (int, Seq<char>)>(
            or_chain(e.map_values(|g: Seq<Term>| group_of(ln, g))),
        ),
    decreases e.len(),
{
    let parts = e.map_values(|g: Seq<Term>| group_tokens(g));
    let cs = e.map_values(|g: Seq<Term>| group_of(ln, g));
    let last = e.last();
    assert(good_group(e[e.len() - 1]));
    assert forall|j: int| 0 <= j < last.len() implies leaf_kind(#[trigger] last[j].1) by {
        assert(good_term(last[j]));
    }
    lemma_group(ln, last);
    lemma_group_len(last);
    lemma_group_no_or(last);
    reveal_strlit("or");
    let lt = group_tokens(last);
    if e.len() == 1 {
        assert(expr_tokens(e) == lt);
        assert forall|j: int| !op_at(lt, "or"@, j) by {
            if 0 <= j < lt.len() {
                assert(lt[j] != "or"@);
            }
        }
        assert(!exists|j: int| is_last_op(lt, "or"@, j));
    } else {
        let pre = e.drop_last();
        assert forall|j: int| 0 <= j < pre.len() implies good_group(#[trigger] pre[j]) by {
            assert(pre[j] == e[j]);
        }
        condition_parses(ln, pre);
        assert(good_group(pre[0]));
        assert forall|j: int| 0 <= j < pre[0].len() implies leaf_kind(#[trigger] pre[0][j].1) by {
            assert(good_term(pre[0][j]));
        }
        lemma_group_len(pre[0]);
        lemma_expr_len(pre);
        assert(pre.map_values(|g: Seq<Term>| group_tokens(g)) =~= parts.drop_last());
        assert(pre.map_values(|g: Seq<Term>| group_of(ln, g)) =~= cs.drop_last());
        let p = expr_tokens(pre);
        let t = expr_tokens(e);
        let i = p.len() as int;
        assert(t == p + seq!["or"@] + lt);
        assert(t[i] == "or"@);
        assert(op_at(t, "or"@, i));
        assert forall|j: int| op_at(t, "or"@, j) implies j <= i by {
            if j > i {
                assert(t[j] == lt[j - i - 1]);
            }
        }
        assert(is_last_op(t, "or"@, i));
        let c = choose|j: int| is_last_op(t, "or"@, j);
        assert(c == i);
        assert(t.take(i) =~= p);
        assert(t.skip(i + 1) =~= lt);
    }
}

proof fn lemma_expr_len(e: Seq<Seq<Term>>)
    requires
        e.len() >= 1,
        forall|i: int| 0 <= i < e.len() ==> good_group(#[trigger] e[i]),
    ensures
        expr_tokens(e).len() >= 2,
    decreases e.len(),
{
    let parts = e.map_values(|g: Seq<Term>| group_tokens(g));
    let last = e.last();
    assert(good_group(e[e.len() - 1]));
    assert forall|j: int| 0 <= j < last.len() implies leaf_kind(#[trigger] last[j].1) by {
        assert(good_term(last[j]));
    }
    lemma_group_len(last);
    if e.len() > 1 {
        let pre = e.drop_last();
        assert forall|j: int| 0 <= j < pre.len() implies good_group(#[trigger] pre[j]) by {
            assert(pre[j] == e[j]);
        }
        lemma_expr_len(pre);
        assert(pre.map_values(|g: Seq<Term>| group_tokens(g)) =~= parts.drop_last());
    }
}

// ── back ends: the exact text of statements and conditions ───────────────────

/// A statement that is not an `if` is one line: its text at the given depth.
proof fn lemma_one_line(st: Style, n: NodeM, d: nat)
    requires
        !(n is If),
    ensures
        block_lines(st, seq![n], d) == seq![indented(leaf_text(st, n), d)],
{
    let s = seq![n];
    assert(s.drop_last() =~= Seq::<NodeM>::empty());
    assert(s.last() == n);
    assert(block_lines(st, s.drop_last(), d) =~= Seq::<Seq<char>>::empty());
    assert(crate::emit::node_lines(st, n, d) == seq![indented(leaf_text(st, n), d)]);
    assert(block_lines(st, s, d) =~= seq![indented(leaf_text(st, n), d)]);
}

/// Two texts that are equal as sequences give the same one-line block.
proof fn lemma_line_is(st: Style, n: NodeM, d: nat, text: Seq<char>)
    requires
        !(n is If),
        leaf_text(st, n) =~= text,
    ensures
        block_lines(st, seq![n], d) == seq![indented(text, d)],
{
    lemma_one_line(st, n, d);
}

/// The bash/zsh line of each statement copies its words exactly, `$` and all,
/// so the shell expands variables in them: `set K V` is `export K="V"`; `path+`
/// and `path-` test `${PATH}` for the directory before adding it in front or
/// behind; `alias N B` is `alias N='B'`; `call C` is `eval "$(C)"`.
pub proof fn bash_statement_lines(
    sh: Seq<char>,
    k: Seq<char>,
    v: Seq<char>,
    dir: Seq<char>,
    cmd: Seq<char>,
    d: nat,
)
    ensures
        block_lines(Style::Posix(sh), seq![NodeM::SetEnv { key: k, val: v }], d) == seq![
            indented("export "@ + k + "=\""@ + v + "\""@, d),
        ],
        block_lines(Style::Posix(sh), seq![NodeM::Path { dir, direction: PathDir::Prepend }], d)
            == seq![
            indented(
                "[[ \"${PATH}\" != *\""@ + dir + "\"* ]] && "@ + "export PATH=\""@ + dir + ":$PATH\""@,
                d,
            ),
        ],
        block_lines(Style::Posix(sh), seq![NodeM::Path { dir, direction: PathDir::Append }], d)
            == seq![
            indented(
                "[[ \"${PATH}\" != *\""@ + dir + "\"* ]] && "@ + "export PATH=\"$PATH:"@ + dir + "\""@,
                d,
            ),
        ],
        block_lines(Style::Posix(sh), seq![NodeM::Alias { name: k, body: v }], d) == seq![
            indented("alias "@ + k + "='"@ + v + "'"@, d),
        ],
        block_lines(Style::Posix(sh), seq![NodeM::Call { cmd, args: Seq::empty() }], d) == seq![
            indented("eval \"$("@ + cmd + ")\""@, d),
        ],
{
    let st = Style::Posix(sh);
    lemma_empty_args(sh);
    lemma_line_is(st, NodeM::SetEnv { key: k, val: v }, d, "export "@ + k + "=\""@ + v + "\""@);
    lemma_line_is(
        st,
        NodeM::Path { dir, direction: PathDir::Prepend },
        d,
        "[[ \"${PATH}\" != *\""@ + dir + "\"* ]] && "@ + "export PATH=\""@ + dir + ":$PATH\""@,
    );
    lemma_line_is(
        st,
        NodeM::Path { dir, direction: PathDir::Append },
        d,
        "[[ \"${PATH}\" != *\""@ + dir + "\"* ]] && "@ + "export PATH=\"$PATH:"@ + dir + "\""@,
    );
    lemma_line_is(st, NodeM::Alias { name: k, body: v }, d, "alias "@ + k + "='"@ + v + "'"@);
    lemma_line_is(st, NodeM::Call { cmd, args: Seq::empty() }, d, "eval \"$("@ + cmd + ")\""@);
}

/// `call` arguments that are empty stay empty, whatever the shell word.
proof fn lemma_empty_args(w: Seq<char>)
    ensures
        crate::emit::call_args(Seq::empty(), w) == Seq::<char>::empty(),
{
    assert(crate::text::replace_all(Seq::empty(), "{shell}"@, w) =~= Seq::<char>::empty());
    assert(crate::text::trim_start(Seq::<char>::empty()) =~= Seq::<char>::empty());
    assert(crate::text::trim_end(Seq::<char>::empty()) =~= Seq::<char>::empty());
}

/// The bash/zsh text of each condition: its words copied exactly, `os` names
/// mapped to what `uname -s` prints, `shell` tested by the shell's version
/// variable (and `false` for any other shell), `not`, `and`, `or` written with
/// `!`, `&&`, `||` around the texts of their parts.
pub proof fn bash_condition_text(sh: Seq<char>, v: Seq<char>, a: CondM, b: CondM)
    ensures
        cond_text(Style::Posix(sh), CondM::Have(v)) == "command -v "@ + v + " >/dev/null 2>&1"@,
        cond_text(Style::Posix(sh), CondM::Exists(v)) == "[ -e \""@ + v + "\" ]"@,
        cond_text(Style::Posix(sh), CondM::Env(v)) == "[ -n \"${"@ + v + ":-}\" ]"@,
        cond_text(Style::Posix(sh), CondM::Os("darwin"@)) == "[ \"$(uname -s)\" = \""@ + "Darwin"@ + "\" ]"@,
        cond_text(Style::Posix(sh), CondM::Os("linux"@)) == "[ \"$(uname -s)\" = \""@ + "Linux"@ + "\" ]"@,
        cond_text(Style::Posix(sh), CondM::Os("windows"@))
            == "[ \"$(uname -s)\" = \""@ + "Windows_NT"@ + "\" ]"@,
        !(v == "darwin"@ || v == "linux"@ || v == "windows"@) ==> cond_text(
            Style::Posix(sh),
            CondM::Os(v),
        ) == "[ \"$(uname -s)\" = \""@ + v + "\" ]"@,
        cond_text(Style::Posix(sh), CondM::Shell("bash"@)) == "[ -n \"$BASH_VERSION\" ]"@,
        cond_text(Style::Posix(sh), CondM::Shell("zsh"@)) == "[ -n \"$ZSH_VERSION\" ]"@,
        !(v == "bash"@ || v == "zsh"@) ==> cond_text(Style::Posix(sh), CondM::Shell(v)) == "false"@,
        cond_text(Style::Posix(sh), CondM::Not(Box::new(a))) == "! "@ + cond_text(Style::Posix(sh), a),
        cond_text(Style::Posix(sh), CondM::And(Box::new(a), Box::new(b))) == cond_text(
            Style::Posix(sh),
            a,
        ) + " && "@ + cond_text(Style::Posix(sh), b),
        cond_text(Style::Posix(sh), CondM::Or(Box::new(a), Box::new(b))) == cond_text(
            Style::Posix(sh),
            a,
        ) + " || "@ + cond_text(Style::Posix(sh), b),
{
    reveal_strlit("darwin");
    reveal_strlit("linux");
    reveal_strlit("windows");
    assert("linux"@.len() != "darwin"@.len());
    assert("windows"@.len() != "darwin"@.len());
    assert("windows"@.len() != "linux"@.len());
    reveal_strlit("bash");
    reveal_strlit("zsh");
    assert("zsh"@.len() != "bash"@.len());
}

/// The fish line of each statement copies its words exactly, `$` and all:
/// `set K V` is `set -gx K "V"`; `path+`/`path-` use `fish_add_path -gP`/`-gaP`
/// on the quoted directory; `alias N B` is `alias N B`; `call C` is
/// `C | source`.
pub proof fn fish_statement_lines(k: Seq<char>, v: Seq<char>, dir: Seq<char>, cmd: Seq<char>, d: nat)
    ensures
        block_lines(Style::Fish, seq![NodeM::SetEnv { key: k, val: v }], d) == seq![
            indented("set -gx "@ + k + " \""@ + v + "\""@, d),
        ],
        block_lines(Style::Fish, seq![NodeM::Path { dir, direction: PathDir::Prepend }], d) == seq![
            indented("fish_add_path "@ + "-gP"@ + " \""@ + dir + "\""@, d),
        ],
        block_lines(Style::Fish, seq![NodeM::Path { dir, direction: PathDir::Append }], d) == seq![
            indented("fish_add_path "@ + "-gaP"@ + " \""@ + dir + "\""@, d),
        ],
        block_lines(Style::Fish, seq![NodeM::Alias { name: k, body: v }], d) == seq![
            indented("alias "@ + k + " "@ + v, d),
        ],
        block_lines(Style::Fish, seq![NodeM::Call { cmd, args: Seq::empty() }], d) == seq![
            indented(cmd + " | source"@, d),
        ],
{
    let st = Style::Fish;
    lemma_empty_args("fish"@);
    reveal_strlit("");
    assert(""@ + cmd + " | source"@ =~= cmd + " | source"@);
    lemma_line_is(st, NodeM::SetEnv { key: k, val: v }, d, "set -gx "@ + k + " \""@ + v + "\""@);
    lemma_line_is(
        st,
        NodeM::Path { dir, direction: PathDir::Prepend },
        d,
        "fish_add_path "@ + "-gP"@ + " \""@ + dir + "\""@,
    );
    lemma_line_is(
        st,
        NodeM::Path { dir, direction: PathDir::Append },
        d,
        "fish_add_path "@ + "-gaP"@ + " \""@ + dir + "\""@,
    );
    lemma_line_is(st, NodeM::Alias { name: k, body: v }, d, "alias "@ + k + " "@ + v);
    lemma_line_is(st, NodeM::Call { cmd, args: Seq::empty() }, d, cmd + " | source"@);
}

/// The fish text of each condition: its words copied exactly (an `exists`
/// path stays `$HOME/…`, so fish expands it), `os` names mapped to what
/// `uname -s` prints, `shell fish` true and any other shell false, and `not`,
/// `and`, `or` written around the texts of their parts.
pub proof fn fish_condition_text(v: Seq<char>, a: CondM, b: CondM)
    ensures
        cond_text(Style::Fish, CondM::Have(v)) == "type -q "@ + v,
        cond_text(Style::Fish, CondM::Exists(v)) == "test -e \""@ + v + "\""@,
        cond_text(Style::Fish, CondM::Env(v)) == "set -q "@ + v,
        cond_text(Style::Fish, CondM::Os("darwin"@)) == "test (uname -s) = \""@ + "Darwin"@ + "\""@,
        cond_text(Style::Fish, CondM::Os("linux"@)) == "test (uname -s) = \""@ + "Linux"@ + "\""@,
        cond_text(Style::Fish, CondM::Os("windows"@)) == "test (uname -s) = \""@ + "Windows_NT"@ + "\""@,
        !(v == "darwin"@ || v == "linux"@ || v == "windows"@) ==> cond_text(
            Style::Fish,
            CondM::Os(v),
        ) == "test (uname -s) = \""@ + v + "\""@,
        cond_text(Style::Fish, CondM::Shell("fish"@)) == "true"@,
        v != "fish"@ ==> cond_text(Style::Fish, CondM::Shell(v)) == "false"@,
        cond_text(Style::Fish, CondM::Not(Box::new(a))) == "not "@ + cond_text(Style::Fish, a),
        cond_text(Style::Fish, CondM::And(Box::new(a), Box::new(b))) == cond_text(Style::Fish, a)
            + ";  and "@ + cond_text(Style::Fish, b),
        cond_text(Style::Fish, CondM::Or(Box::new(a), Box::new(b))) == cond_text(Style::Fish, a)
            + ";  or "@ + cond_text(Style::Fish, b),
{
    reveal_strlit("darwin");
    reveal_strlit("linux");
    reveal_strlit("windows");
    assert("linux"@.len() != "darwin"@.len());
    assert("windows"@.len() != "darwin"@.len());
    assert("windows"@.len() != "linux"@.len());
}

/// The PowerShell line of each statement copies its words exactly: `set K V`
/// is `$env:K = "V"`; for both `path+` and `path-` the line first tests
/// `$env:PATH` for the directory and only then adds it in front or behind;
/// `alias N B` is `Set-Alias -Scope Global -Name N -Value B`; `call C` is
/// `Invoke-Expression (& C)`.
pub proof fn pwsh_statement_lines(k: Seq<char>, v: Seq<char>, dir: Seq<char>, cmd: Seq<char>, d: nat)
    ensures
        block_lines(Style::Pwsh, seq![NodeM::SetEnv { key: k, val: v }], d) == seq![
            indented("$env:"@ + k + " = \""@ + v + "\""@, d),
        ],
        block_lines(Style::Pwsh, seq![NodeM::Path { dir, direction: PathDir::Prepend }], d) == seq![
            indented(
                "if ($env:PATH -notlike '*"@ + dir + "*') { "@ + "$env:PATH = \""@ + dir
                    + ";$env:PATH\""@ + " }"@,
                d,
            ),
        ],
        block_lines(Style::Pwsh, seq![NodeM::Path { dir, direction: PathDir::Append }], d) == seq![
            indented(
                "if ($env:PATH -notlike '*"@ + dir + "*') { "@ + "$env:PATH = \"$env:PATH;"@ + dir
                    + "\""@ + " }"@,
                d,
            ),
        ],
        block_lines(Style::Pwsh, seq![NodeM::Alias { name: k, body: v }], d) == seq![
            indented("Set-Alias -Scope Global -Name "@ + k + " -Value "@ + v, d),
        ],
        block_lines(Style::Pwsh, seq![NodeM::Call { cmd, args: Seq::empty() }], d) == seq![
            indented("Invoke-Expression (& "@ + cmd + ")"@, d),
        ],
{
    let st = Style::Pwsh;
    lemma_empty_args("powershell"@);
    lemma_line_is(st, NodeM::SetEnv { key: k, val: v }, d, "$env:"@ + k + " = \""@ + v + "\""@);
    lemma_line_is(
        st,
        NodeM::Path { dir, direction: PathDir::Prepend },
        d,
        "if ($env:PATH -notlike '*"@ + dir + "*') { "@ + "$env:PATH = \""@ + dir + ";$env:PATH\""@
            + " }"@,
    );
    lemma_line_is(
        st,
        NodeM::Path { dir, direction: PathDir::Append },
        d,
        "if ($env:PATH -notlike '*"@ + dir + "*') { "@ + "$env:PATH = \"$env:PATH;"@ + dir + "\""@
            + " }"@,
    );
    lemma_line_is(
        st,
        NodeM::Alias { name: k, body: v },
        d,
        "Set-Alias -Scope Global -Name "@ + k + " -Value "@ + v,
    );
    lemma_line_is(st, NodeM::Call { cmd, args: Seq::empty() }, d, "Invoke-Expression (& "@ + cmd + ")"@);
}

/// The PowerShell text of each condition: its words copied exactly, `os` names
/// tested by `$IsMacOS`, `$IsLinux`, `$IsWindows` (any other name is false),
/// `shell pwsh` true and any other shell false, and `not`, `and`, `or` written
/// with `-not`, `-and`, `-or` around the bracketed texts of their parts.
pub proof fn pwsh_condition_text(v: Seq<char>, a: CondM, b: CondM)
    ensures
        cond_text(Style::Pwsh, CondM::Have(v)) == "Get-Command "@ + v + " -ErrorAction SilentlyContinue"@,
        cond_text(Style::Pwsh, CondM::Exists(v)) == "Test-Path \""@ + v + "\""@,
        cond_text(Style::Pwsh, CondM::Env(v)) == "(Test-Path env:"@ + v + ")"@,
        cond_text(Style::Pwsh, CondM::Os("darwin"@)) == "$IsMacOS"@,
        cond_text(Style::Pwsh, CondM::Os("linux"@)) == "$IsLinux"@,
        cond_text(Style::Pwsh, CondM::Os("windows"@)) == "$IsWindows"@,
        !(v == "darwin"@ || v == "linux"@ || v == "windows"@) ==> cond_text(
            Style::Pwsh,
            CondM::Os(v),
        ) == "$false # unknown os: "@ + v,
        cond_text(Style::Pwsh, CondM::Shell("pwsh"@)) == "$true"@,
        v != "pwsh"@ ==> cond_text(Style::Pwsh, CondM::Shell(v)) == "$false"@,
        cond_text(Style::Pwsh, CondM::Not(Box::new(a))) == "(-not ("@ + cond_text(Style::Pwsh, a)
            + "))"@,
        cond_text(Style::Pwsh, CondM::And(Box::new(a), Box::new(b))) == "("@ + cond_text(
            Style::Pwsh,
            a,
        ) + ") -and ("@ + cond_text(Style::Pwsh, b) + ")"@,
        cond_text(Style::Pwsh, CondM::Or(Box::new(a), Box::new(b))) == "("@ + cond_text(
            Style::Pwsh,
            a,
        ) + ") -or ("@ + cond_text(Style::Pwsh, b) + ")"@,
{
    reveal_strlit("darwin");
    reveal_strlit("linux");
    reveal_strlit("windows");
    assert("linux"@.len() != "darwin"@.len());
    assert("windows"@.len() != "darwin"@.len());
    assert("windows"@.len() != "linux"@.len());
}

/// The first line of an `if` block is the dialect's opening around the
/// condition's text, at the block's depth: `if C; then` in bash/zsh, `if C` in
/// fish, `if (C) {` in PowerShell; its last line closes it: `fi`, `end`, `}`.
pub proof fn if_block_ends(sh: Seq<char>, i: IfM, d: nat)
    ensures
        if_lines(Style::Posix(sh), i, d)[0] == indented(
            "if "@ + cond_text(Style::Posix(sh), i.cond) + "; then"@,
            d,
        ),
        if_lines(Style::Posix(sh), i, d).last() == indented("fi"@, d),
        if_lines(Style::Fish, i, d)[0] == indented("if "@ + cond_text(Style::Fish, i.cond), d),
        if_lines(Style::Fish, i, d).last() == indented("end"@, d),
        if_lines(Style::Pwsh, i, d)[0] == indented("if ("@ + cond_text(Style::Pwsh, i.cond) + ") {"@, d),
        if_lines(Style::Pwsh, i, d).last() == indented("}"@, d),
{
}

/// The lines of an `elif` branch list of one branch: its opening line, then
/// its body one level deeper.
proof fn lemma_one_branch(st: Style, c: CondM, b: Seq<NodeM>, d: nat)
    ensures
        branch_lines(st, seq![(c, b)], d) == seq![
            indented(crate::emit::elif_open(st, cond_text(st, c)), d),
        ] + block_lines(st, b, d + 1),
{
    let es = seq![(c, b)];
    assert(es.drop_first() =~= Seq::<(CondM, Seq<NodeM>)>::empty());
    assert(branch_lines(st, es.drop_first(), d) =~= Seq::<Seq<char>>::empty());
    assert(branch_lines(st, es, d) =~= seq![
        indented(crate::emit::elif_open(st, cond_text(st, c)), d),
    ] + block_lines(st, b, d + 1));
}

/// The layout of an `if` block with one `elif` branch and an `else` branch, in
/// each dialect: the opening line with the condition, the body one level
/// deeper, the `elif` line with its condition and its body, the `else` line and
/// its body (only when that body is not empty), and the closing line; every
/// keyword line at the block's own depth.
pub proof fn if_block_layout(sh: Seq<char>, c: CondM, b: Seq<NodeM>, c2: CondM, b2: Seq<NodeM>, e: Seq<NodeM>, d: nat)
    ensures
        if_lines(Style::Posix(sh), IfM { cond: c, body: b, elifs: seq![(c2, b2)], else_: e }, d)
            == seq![indented("if "@ + cond_text(Style::Posix(sh), c) + "; then"@, d)]
            + block_lines(Style::Posix(sh), b, d + 1) + seq![
            indented("elif "@ + cond_text(Style::Posix(sh), c2) + "; then"@, d),
        ] + block_lines(Style::Posix(sh), b2, d + 1) + (if e.len() > 0 {
            seq![indented("else"@, d)] + block_lines(Style::Posix(sh), e, d + 1)
        } else {
            Seq::empty()
        }) + seq![indented("fi"@, d)],
        if_lines(Style::Fish, IfM { cond: c, body: b, elifs: seq![(c2, b2)], else_: e }, d)
            == seq![indented("if "@ + cond_text(Style::Fish, c), d)] + block_lines(Style::Fish, b, d + 1)
            + seq![indented("else if "@ + cond_text(Style::Fish, c2), d)] + block_lines(
            Style::Fish,
            b2,
            d + 1,
        ) + (if e.len() > 0 {
            seq![indented("else"@, d)] + block_lines(Style::Fish, e, d + 1)
        } else {
            Seq::empty()
        }) + seq![indented("end"@, d)],
        if_lines(Style::Pwsh, IfM { cond: c, body: b, elifs: seq![(c2, b2)], else_: e }, d)
            == seq![indented("if ("@ + cond_text(Style::Pwsh, c) + ") {"@, d)] + block_lines(
            Style::Pwsh,
            b,
            d + 1,
        ) + seq![indented("} elseif ("@ + cond_text(Style::Pwsh, c2) + ") {"@, d)] + block_lines(
            Style::Pwsh,
            b2,
            d + 1,
        ) + (if e.len() > 0 {
            seq![indented("} else {"@, d)] + block_lines(Style::Pwsh, e, d + 1)
        } else {
            Seq::empty()
        }) + seq![indented("}"@, d)],
{
    lemma_one_branch(Style::Posix(sh), c2, b2, d);
    lemma_one_branch(Style::Fish, c2, b2, d);
    lemma_one_branch(Style::Pwsh, c2, b2, d);
}

// ── quotes, slashes, indentation ─────────────────────────────────────────────

/// One layer of whole-value quotes is removed, and only that: `"x"` and `'x'`
/// give `x`, and a value that does not start with a quote is kept as written.
pub proof fn quote_stripping(x: Seq<char>, s: Seq<char>)
    ensures
        unquote(seq!['"'] + x + seq!['"']) == x,
        unquote(seq!['\''] + x + seq!['\'']) == x,
        (s.len() == 0 || (s[0] != '"' && s[0] != '\'')) ==> unquote(s) == s,
{
    let a = seq!['"'] + x + seq!['"'];
    let b = seq!['\''] + x + seq!['\''];
    assert(a.subrange(1, a.len() - 1) =~= x);
    assert(b.subrange(1, b.len() - 1) =~= x);
}

/// Turning `\` into `/` keeps the length, leaves no `\`, and changes no other
/// character.
pub proof fn forward_slashes_changes_only_backslashes(s: Seq<char>)
    ensures
        forward_slashes(s).len() == s.len(),
        !forward_slashes(s).contains('\\'),
        forall|i: int| 0 <= i < s.len() && s[i] != '\\' ==> #[trigger] forward_slashes(s)[i] == s[i],
        forall|i: int| 0 <= i < s.len() && s[i] == '\\' ==> #[trigger] forward_slashes(s)[i] == '/',
{
    if forward_slashes(s).contains('\\') {
        let i = choose|i: int| 0 <= i < forward_slashes(s).len() && forward_slashes(s)[i] == '\\';
        assert(forward_slashes(s)[i] == (if s[i] == '\\' { '/' } else { s[i] }));
    }
}

/// Indenting by `d` levels puts exactly `2 * d` spaces before the text and
/// keeps the text as it is.
pub proof fn indentation_is_two_spaces_per_level(s: Seq<char>, d: nat)
    ensures
        indented(s, d).len() == s.len() + 2 * d,
        forall|i: int| 0 <= i < 2 * d as int ==> #[trigger] indented(s, d)[i] == ' ',
        indented(s, d).skip(2 * d as int) == s,
{
    assert(indented(s, d).skip(2 * d as int) =~= s);
}

// ── target shells and the host ──────────────────────────────────────────────

/// The four target names select their dialects (`bash` and `zsh` the POSIX
/// one under their own name, so `{shell}` becomes that name); PowerShell's
/// `{shell}` is `powershell`; any other name selects none and is answered by
/// the error that lists the choices.
pub proof fn target_shells(shell: Seq<char>, ns: Seq<NodeM>)
    ensures
        style_for("bash"@) == Some(Style::Posix("bash"@)),
        style_for("zsh"@) == Some(Style::Posix("zsh"@)),
        style_for("fish"@) == Some(Style::Fish),
        style_for("pwsh"@) == Some(Style::Pwsh),
        !(shell == "bash"@ || shell == "zsh"@ || shell == "fish"@ || shell == "pwsh"@)
            ==> style_for(shell) is None,
        call_word(Style::Posix(shell)) == shell,
        call_word(Style::Fish) == "fish"@,
        call_word(Style::Pwsh) == "powershell"@,
        style_name(Style::Pwsh) == "pwsh"@,
        style_name(Style::Fish) == "fish"@,
        style_name(Style::Posix(shell)) == shell,
{
    reveal_strlit("bash");
    reveal_strlit("zsh");
    reveal_strlit("fish");
    reveal_strlit("pwsh");
    assert("bash"@[0] != "fish"@[0]);
    assert("bash"@[0] != "pwsh"@[0]);
    assert("fish"@[0] != "pwsh"@[0]);
    assert("zsh"@.len() != "bash"@.len());
    assert("zsh"@.len() != "fish"@.len());
    assert("zsh"@.len() != "pwsh"@.len());
}

/// `os` conditions are decided by the build host: on each of the three known
/// hosts its own name is true and the other two known names are false; on
/// any other host, and for any other name, the condition stays a runtime check.
pub proof fn os_folds_by_host(sh: Seq<char>, v: Seq<char>)
    ensures
        fold_cond(CondM::Os("darwin"@), sh, HostOs::Darwin) == Fold::True,
        fold_cond(CondM::Os("linux"@), sh, HostOs::Darwin) == Fold::False,
        fold_cond(CondM::Os("windows"@), sh, HostOs::Darwin) == Fold::False,
        fold_cond(CondM::Os("darwin"@), sh, HostOs::Linux) == Fold::False,
        fold_cond(CondM::Os("linux"@), sh, HostOs::Linux) == Fold::True,
        fold_cond(CondM::Os("windows"@), sh, HostOs::Linux) == Fold::False,
        fold_cond(CondM::Os("darwin"@), sh, HostOs::Windows) == Fold::False,
        fold_cond(CondM::Os("linux"@), sh, HostOs::Windows) == Fold::False,
        fold_cond(CondM::Os("windows"@), sh, HostOs::Windows) == Fold::True,
        fold_cond(CondM::Os(v), sh, HostOs::Other) == Fold::Unknown(CondM::Os(v)),
        !(v == "darwin"@ || v == "linux"@ || v == "windows"@) ==> fold_cond(CondM::Os(v), sh, HostOs::Linux)
            == Fold::Unknown(CondM::Os(v)),
        !(v == "darwin"@ || v == "linux"@ || v == "windows"@) ==> fold_cond(CondM::Os(v), sh, HostOs::Darwin)
            == Fold::Unknown(CondM::Os(v)),
        !(v == "darwin"@ || v == "linux"@ || v == "windows"@) ==> fold_cond(CondM::Os(v), sh, HostOs::Windows)
            == Fold::Unknown(CondM::Os(v)),
{
    reveal_strlit("darwin");
    reveal_strlit("linux");
    reveal_strlit("windows");
    assert("linux"@.len() != "darwin"@.len());
    assert("windows"@.len() != "darwin"@.len());
    assert("windows"@.len() != "linux"@.len());
}

// ── errors and lines ─────────────────────────────────────────────────────────

/// An error on source line `n` (1 or more) reads `line `, the line number in
/// decimal, `: ` and the message; one at line 0 is the message alone.
pub proof fn error_reading(n: nat, msg: Seq<char>)
    ensures
        n >= 1 ==> error_text(n, msg) == "line "@ + decimal(n) + ": "@ + msg,
        error_text(0, msg) == msg,
{
}

proof fn lemma_join_update_last(ls: Seq<Seq<char>>, x: Seq<char>, sep: Seq<char>)
    requires
        ls.len() >= 1,
    ensures
        join_with(ls.update(ls.len() - 1, x), sep) == join_with(ls.drop_last(), sep) + (if ls.len()
            == 1 {
            Seq::<char>::empty()
        } else {
            sep
        }) + x,
        join_with(ls, sep) == join_with(ls.drop_last(), sep) + (if ls.len() == 1 {
            Seq::<char>::empty()
        } else {
            sep
        }) + ls.last(),
{
    let u = ls.update(ls.len() - 1, x);
    assert(u.drop_last() =~= ls.drop_last());
    if ls.len() == 1 {
        assert(join_with(ls.drop_last(), sep) =~= Seq::<char>::empty());
        assert(join_with(ls.drop_last(), sep) + Seq::<char>::empty() + x =~= x);
        assert(join_with(ls.drop_last(), sep) + Seq::<char>::empty() + ls.last() =~= ls.last());
    }
}

/// Splitting source text into lines loses nothing: the lines joined with `\n`
/// give back the text.
pub proof fn lines_rejoin(s: Seq<char>)
    ensures
        join_with(split_lines(s), "\n"@) == s,
    decreases s.len(),
{
    reveal_strlit("\n");
    if s.len() == 0 {
        assert(split_lines(s) =~= seq![Seq::<char>::empty()]);
        assert(join_with(split_lines(s), "\n"@) =~= s);
    } else {
        let pre = s.drop_last();
        lines_rejoin(pre);
        let ls = split_lines(pre);
        crate::text::lemma_split_lines_nonempty(pre);
        if s.last() == '\n' {
            let n = ls.push(Seq::empty());
            assert(n.drop_last() =~= ls);
            assert(join_with(n, "\n"@) == join_with(ls, "\n"@) + "\n"@ + Seq::<char>::empty());
            assert(join_with(n, "\n"@) =~= s);
        } else {
            let c = s.last();
            lemma_join_update_last(ls, ls.last().push(c), "\n"@);
            let a = join_with(ls.drop_last(), "\n"@) + (if ls.len() == 1 {
                Seq::<char>::empty()
            } else {
                "\n"@
            });
            assert(split_lines(s) == ls.update(ls.len() - 1, ls.last().push(c)));
            assert(join_with(ls, "\n"@) == a + ls.last());
            assert(a + ls.last().push(c) =~= (a + ls.last()).push(c));
            assert(s =~= pre.push(c));
        }
    }
}

// ── words and comments ───────────────────────────────────────────────────────

/// `s` with its white-space characters left out.
pub open spec fn without_ws(s: Seq<char>) -> Seq<char>
    decreases s.len(),
{
    if s.len() == 0 {
        Seq::empty()
    } else if is_ws(s.last()) {
        without_ws(s.drop_last())
    } else {
        without_ws(s.drop_last()).push(s.last())
    }
}

/// Words `ws` written one after the other.
pub open spec fn concat_words(ws: Seq<Seq<char>>) -> Seq<char>
    decreases ws.len(),
{
    if ws.len() == 0 {
        Seq::empty()
    } else {
        concat_words(ws.drop_last()) + ws.last()
    }
}

/// Splitting at white space keeps every other character, in order, and no
/// white space: each word is non-empty and holds no space, tab, carriage
/// return or newline (nor any other white space), and the words written one
/// after the other are the text without its white space.
pub proof fn words_keep_text(s: Seq<char>)
    ensures
        concat_words(words(s)) == without_ws(s),
        forall|k: int| 0 <= k < words(s).len() ==> #[trigger] words(s)[k].len() > 0,
        forall|k: int, j: int|
            0 <= k < words(s).len() && 0 <= j < words(s)[k].len() ==> !is_ws(#[trigger] words(s)[k][j]),
        forall|k: int, j: int|
            0 <= k < words(s).len() && 0 <= j < words(s)[k].len() ==> {
                let c = #[trigger] words(s)[k][j];
                c != ' ' && c != '\t' && c != '\r' && c != '\n'
            },
        (s.len() > 0 && !is_ws(s.last())) ==> words(s).len() > 0,
    decreases s.len(),
{
    if s.len() > 0 {
        let pre = s.drop_last();
        let c = s.last();
        let w = words(pre);
        words_keep_text(pre);
        if is_ws(c) {
        } else if s.len() >= 2 && !is_ws(s[s.len() - 2]) {
            assert(pre.last() == s[s.len() - 2]);
            let u = w.update(w.len() - 1, w.last().push(c));
            assert(u.drop_last() =~= w.drop_last());
            assert(concat_words(u) == concat_words(w.drop_last()) + w.last().push(c));
            assert(concat_words(w) == concat_words(w.drop_last()) + w.last());
            assert(concat_words(w.drop_last()) + w.last().push(c) =~= (concat_words(w.drop_last())
                + w.last()).push(c));
            assert forall|k: int, j: int| 0 <= k < u.len() && 0 <= j < u[k].len() implies !is_ws(
                #[trigger] u[k][j],
            ) by {
                if k < u.len() - 1 {
                    assert(u[k] == w[k]);
                } else if j < w.last().len() {
                    assert(u[k][j] == w[k][j]);
                }
            }
        } else {
            let u = w.push(seq![c]);
            assert(u.drop_last() =~= w);
            assert forall|k: int, j: int| 0 <= k < u.len() && 0 <= j < u[k].len() implies !is_ws(
                #[trigger] u[k][j],
            ) by {
                if k < w.len() {
                    assert(u[k] == w[k]);
                }
            }
        }
    }
}

proof fn lemma_code_end_exists(l: Seq<char>, e: int)
    requires
        0 <= e <= l.len(),
        forall|j: int| 0 <= j < e ==> l[j] != '#',
    ensures
        exists|k: int| crate::text::is_code_end(l, k),
    decreases l.len() - e,
{
    if e == l.len() || l[e] == '#' {
        assert(crate::text::is_code_end(l, e));
    } else {
        lemma_code_end_exists(l, e + 1);
    }
}

/// A comment runs from the first `#` to the end of the line: the code part
/// of a line holds no `#` and is where the line starts.
pub proof fn comments_cut_at_hash(l: Seq<char>)
    ensures
        !code_part(l).contains('#'),
        l.take(code_part(l).len() as int) == code_part(l),
        code_part(l).len() < l.len() ==> l[code_part(l).len() as int] == '#',
{
    lemma_code_end_exists(l, 0);
    let k = choose|k: int| crate::text::is_code_end(l, k);
    assert(crate::text::is_code_end(l, k));
    assert(code_part(l) == l.take(k));
    if code_part(l).contains('#') {
        let j = choose|j: int| 0 <= j < code_part(l).len() && code_part(l)[j] == '#';
        assert(l[j] != '#');
    }
}

// ── `{shell}` in `call` arguments ───────────────────────────────────────────

/// `pat` occurs in `s` at position `i`.
pub open spec fn occurs_at(s: Seq<char>, pat: Seq<char>, i: int) -> bool {
    0 <= i && i + pat.len() <= s.len() && s.subrange(i, i + pat.len()) == pat
}

/// Replacing changes nothing in text where the pattern does not occur.
pub proof fn replace_without_occurrence(s: Seq<char>, pat: Seq<char>, rep: Seq<char>)
    requires
        pat.len() > 0,
        forall|i: int| !occurs_at(s, pat, i),
    ensures
        replace_all(s, pat, rep) == s,
    decreases s.len(),
{
    if s.len() > 0 {
        if pat.len() <= s.len() {
            assert(s.take(pat.len() as int) =~= s.subrange(0, pat.len() as int));
            assert(!occurs_at(s, pat, 0));
        }
        let r = s.drop_first();
        assert forall|i: int| !occurs_at(r, pat, i) by {
            if occurs_at(r, pat, i) {
                assert(s.subrange(i + 1, i + 1 + pat.len()) =~= r.subrange(i, i + pat.len()));
                assert(occurs_at(s, pat, i + 1));
            }
        }
        replace_without_occurrence(r, pat, rep);
        assert(seq![s[0]] + r =~= s);
    }
}

/// Every occurrence is replaced, left to right: text starting with the pattern
/// is the replacement followed by the rest with its occurrences replaced, and
/// a first character that does not start an occurrence is kept.
pub proof fn replace_every_occurrence(s: Seq<char>, pat: Seq<char>, rep: Seq<char>, x: char)
    requires
        pat.len() > 0,
    ensures
        replace_all(pat + s, pat, rep) == rep + replace_all(s, pat, rep),
        !occurs_at(seq![x] + s, pat, 0) ==> replace_all(seq![x] + s, pat, rep) == seq![x]
            + replace_all(s, pat, rep),
{
    let a = pat + s;
    assert(a.take(pat.len() as int) =~= pat);
    assert(a.skip(pat.len() as int) =~= s);
    let b = seq![x] + s;
    assert(b.drop_first() =~= s);
    if pat.len() <= b.len() {
        assert(b.take(pat.len() as int) =~= b.subrange(0, pat.len() as int));
    }
}

/// Trimming removes white space at both ends and only there: text that starts
/// and ends with a non-white-space character is kept, and white space added at
/// either end is removed again.
pub proof fn trimming(s: Seq<char>, c: char)
    requires
        is_ws(c),
    ensures
        (s.len() == 0 || (!is_ws(s[0]) && !is_ws(s.last()))) ==> trim(s) == s,
        trim(seq![c] + s) == trim(s),
        trim(s.push(c)) == trim(s),
        is_ws(' ') && is_ws('\t') && is_ws('\n') && is_ws('\r'),
    decreases s.len(),
{
    assert((seq![c] + s).drop_first() =~= s);
    assert(s.push(c).drop_last() =~= s);
    if s.len() == 0 || (!is_ws(s[0]) && !is_ws(s.last())) {
        assert(trim_start(s) == s);
    }
    lemma_trim_end_push(trim_start(s), s, c);
}

/// Trimming the start of `s + [c]` with `c` white space, then the end, is the
/// same as without `c`.
proof fn lemma_trim_end_push(t: Seq<char>, s: Seq<char>, c: char)
    requires
        is_ws(c),
        t == trim_start(s),
    ensures
        trim_end(trim_start(s.push(c))) == trim_end(t),
    decreases s.len(),
{
    if s.len() > 0 && is_ws(s[0]) {
        assert(s.push(c).drop_first() =~= s.drop_first().push(c));
        lemma_trim_end_push(trim_start(s.drop_first()), s.drop_first(), c);
    } else if s.len() == 0 {
        assert(s.push(c) =~= seq![c]);
        assert(seq![c].drop_first() =~= Seq::<char>::empty());
        assert(trim_start(Seq::<char>::empty()) =~= Seq::<char>::empty());
        assert(trim_start(seq![c]) == trim_start(seq![c].drop_first()));
        assert(trim_start(s.push(c)) =~= Seq::<char>::empty());
        assert(t =~= Seq::<char>::empty());
    } else {
        assert(trim_start(s.push(c)) == s.push(c));
        assert(s.push(c).drop_last() =~= s);
    }
}

} // verus!
