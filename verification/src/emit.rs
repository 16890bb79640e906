//! Emitters: turn statements into lines of a target shell's script.
use vstd::prelude::*;
use crate::ast::{
    CondM, IfM, IfNode, Node, NodeM, cond_model, elifs_model, elifs_size, if_model, lemma_elifs_model, lemma_elifs_size,
    lemma_nodes_model, lemma_seq_size, node_model, node_size, nodes_model, seq_size,
};
use crate::text::{
    debug_quoted, debug_text, join_from, join_with, replace_all, replace_text, same_text, strs_view, trim,
    trim_text,
};
use crate::emit::bash::BashEmitter;
use crate::emit::fish::FishEmitter;
use crate::emit::pwsh::PwshEmitter;

pub mod bash;
pub mod fish;
pub mod pwsh;

verus! {

/// `2 * depth` spaces followed by `s`.
pub open spec fn indented(s: Seq<char>, depth: nat) -> Seq<char> {
    Seq::new(2 * depth, |i: int| ' ') + s
}

/// Return `s` prefixed by `depth * 2` spaces.
pub fn indent(s: String, depth: usize) -> (r: String)
    ensures
        r@ == indented(s@, depth as nat),
{
    if depth == 0 {
        assert(indented(s@, 0) =~= s@);
        return s;
    }
    proof {
        reveal_strlit(" ");
    }
    let mut buf = String::new();
    let mut i: usize = 0;
    while i < depth
        invariant
            i <= depth,
            buf@ == Seq::new(2 * i as nat, |j: int| ' '),
        decreases depth - i,
    {
        proof {
            reveal_strlit(" ");
        }
        buf.append(" ");
        buf.append(" ");
        i = i + 1;
        assert(buf@ =~= Seq::new(2 * i as nat, |j: int| ' '));
    }
    buf.append(s.as_str());
    buf
}

/// Indenting by no levels changes nothing.
pub proof fn indent_identity(s: Seq<char>)
    ensures
        indented(s, 0) == s,
{
    assert(indented(s, 0) =~= s);
}

/// Indenting by `a` levels and then by `b` levels indents by `a + b` levels.
pub proof fn indent_compose(s: Seq<char>, a: nat, b: nat)
    ensures
        indented(indented(s, a), b) == indented(s, a + b),
{
    assert(indented(indented(s, a), b) =~= indented(s, a + b));
}

/// The three dialects, as far as the text they produce differs.
pub enum Style {
    /// bash or zsh; the name is the one the target is called by.
    Posix(Seq<char>),
    Fish,
    Pwsh,
}

/// The shell name of a dialect.
pub open spec fn style_name(st: Style) -> Seq<char> {
    match st {
        Style::Posix(n) => n,
        Style::Fish => "fish"@,
        Style::Pwsh => "pwsh"@,
    }
}

/// What `{shell}` stands for in `call` arguments.
pub open spec fn call_word(st: Style) -> Seq<char> {
    match st {
        Style::Posix(n) => n,
        Style::Fish => "fish"@,
        Style::Pwsh => "powershell"@,
    }
}

/// `call` arguments with `{shell}` replaced by `word`, trimmed.
pub open spec fn call_args(args: Seq<char>, word: Seq<char>) -> Seq<char> {
    trim(replace_all(args, "{shell}"@, word))
}

/// `prefix`, `cmd`, a space and `args` when they are not empty, then `suffix`.
pub open spec fn call_text(prefix: Seq<char>, cmd: Seq<char>, args: Seq<char>, suffix: Seq<char>) -> Seq<char> {
    if args.len() == 0 {
        prefix + cmd + suffix
    } else {
        prefix + cmd + " "@ + args + suffix
    }
}

/// Text of a condition in a dialect.
pub open spec fn cond_text(st: Style, c: CondM) -> Seq<char> {
    match st {
        Style::Posix(_) => bash::bash_cond(c),
        Style::Fish => fish::fish_cond(c),
        Style::Pwsh => pwsh::pwsh_cond(c),
    }
}

/// The line for a `set`, `path`, `call` or `alias` statement.
pub open spec fn leaf_text(st: Style, n: NodeM) -> Seq<char> {
    match st {
        Style::Posix(sh) => bash::bash_leaf(n, sh),
        Style::Fish => fish::fish_leaf(n),
        Style::Pwsh => pwsh::pwsh_leaf(n),
    }
}

/// The opening line of an `if` block.
pub open spec fn if_open(st: Style, c: Seq<char>) -> Seq<char> {
    match st {
        Style::Posix(_) => "if "@ + c + "; then"@,
        Style::Fish => "if "@ + c,
        Style::Pwsh => "if ("@ + c + ") {"@,
    }
}

/// The line that starts an `elif` branch.
pub open spec fn elif_open(st: Style, c: Seq<char>) -> Seq<char> {
    match st {
        Style::Posix(_) => "elif "@ + c + "; then"@,
        Style::Fish => "else if "@ + c,
        Style::Pwsh => "} elseif ("@ + c + ") {"@,
    }
}

/// The line that starts an `else` branch.
pub open spec fn else_open(st: Style) -> Seq<char> {
    match st {
        Style::Pwsh => "} else {"@,
        _ => "else"@,
    }
}

/// The line that closes an `if` block.
pub open spec fn if_close(st: Style) -> Seq<char> {
    match st {
        Style::Posix(_) => "fi"@,
        Style::Fish => "end"@,
        Style::Pwsh => "}"@,
    }
}

/// The lines of statements `ns` at indent depth `d`.
pub open spec fn block_lines(st: Style, ns: Seq<NodeM>, d: nat) -> Seq<Seq<char>>
    decreases seq_size(ns), 0nat,
{
    if ns.len() == 0 {
        Seq::empty()
    } else {
        block_lines(st, ns.drop_last(), d) + node_lines(st, ns.last(), d)
    }
}

/// The lines of one statement at indent depth `d`.
pub open spec fn node_lines(st: Style, n: NodeM, d: nat) -> Seq<Seq<char>>
    decreases node_size(n), 3nat,
{
    match n {
        NodeM::If(i) => if_lines(st, i, d),
        _ => seq![indented(leaf_text(st, n), d)],
    }
}

/// The lines of an `if` block: its head, body, `elif` branches, `else`
/// branch when its body is not empty, and the closing line.
pub open spec fn if_lines(st: Style, i: IfM, d: nat) -> Seq<Seq<char>>
    decreases node_size(NodeM::If(i)) - 1, 2nat,
{
    seq![indented(if_open(st, cond_text(st, i.cond)), d)] + block_lines(st, i.body, d + 1)
        + branch_lines(st, i.elifs, d) + (if i.else_.len() > 0 {
        seq![indented(else_open(st), d)] + block_lines(st, i.else_, d + 1)
    } else {
        Seq::empty()
    }) + seq![indented(if_close(st), d)]
}

/// The lines of `elif` branches.
pub open spec fn branch_lines(st: Style, es: Seq<(CondM, Seq<NodeM>)>, d: nat) -> Seq<Seq<char>>
    decreases elifs_size(es), 1nat,
{
    if es.len() == 0 {
        Seq::empty()
    } else {
        seq![indented(elif_open(st, cond_text(st, es[0].0)), d)] + block_lines(st, es[0].1, d + 1)
            + branch_lines(st, es.drop_first(), d)
    }
}

/// The lines of the branches `a + b` are those of `a`, then those of `b`.
pub proof fn lemma_branch_lines_concat(
    st: Style,
    a: Seq<(CondM, Seq<NodeM>)>,
    b: Seq<(CondM, Seq<NodeM>)>,
    d: nat,
)
    ensures
        branch_lines(st, a + b, d) == branch_lines(st, a, d) + branch_lines(st, b, d),
    decreases a.len(),
{
    if a.len() == 0 {
        assert(a + b =~= b);
        assert(branch_lines(st, a, d) + branch_lines(st, b, d) =~= branch_lines(st, b, d));
    } else {
        lemma_branch_lines_concat(st, a.drop_first(), b, d);
        assert((a + b).drop_first() =~= a.drop_first() + b);
        assert((a + b)[0] == a[0]);
        assert(branch_lines(st, a + b, d) =~= branch_lines(st, a, d) + branch_lines(st, b, d));
    }
}

/// Each line of `ls` indented by `d` more levels.
pub open spec fn shifted(ls: Seq<Seq<char>>, d: nat) -> Seq<Seq<char>> {
    ls.map_values(|l: Seq<char>| indented(l, d))
}

proof fn lemma_shift_concat(a: Seq<Seq<char>>, b: Seq<Seq<char>>, d: nat)
    ensures
        shifted(a + b, d) == shifted(a, d) + shifted(b, d),
{
    assert(shifted(a + b, d) =~= shifted(a, d) + shifted(b, d));
}

proof fn lemma_shift_compose(ls: Seq<Seq<char>>, a: nat, b: nat)
    ensures
        shifted(shifted(ls, a), b) == shifted(ls, a + b),
{
    assert forall|i: int| 0 <= i < ls.len() implies #[trigger] shifted(shifted(ls, a), b)[i]
        == shifted(ls, a + b)[i] by {
        indent_compose(ls[i], a, b);
    }
    assert(shifted(shifted(ls, a), b) =~= shifted(ls, a + b));
}

proof fn lemma_shift_single(x: Seq<char>, d: nat)
    ensures
        shifted(seq![indented(x, 0)], d) == seq![indented(x, d)],
{
    indent_compose(x, 0, d);
    assert(shifted(seq![indented(x, 0)], d) =~= seq![indented(x, d)]);
}

proof fn lemma_block_shift(st: Style, ns: Seq<NodeM>, d: nat)
    ensures
        block_lines(st, ns, d) == shifted(block_lines(st, ns, 0), d),
    decreases seq_size(ns), 0nat,
{
    if ns.len() == 0 {
        assert(shifted(block_lines(st, ns, 0), d) =~= block_lines(st, ns, d));
    } else {
        lemma_block_shift(st, ns.drop_last(), d);
        lemma_node_shift(st, ns.last(), d);
        lemma_shift_concat(block_lines(st, ns.drop_last(), 0), node_lines(st, ns.last(), 0), d);
    }
}

proof fn lemma_node_shift(st: Style, n: NodeM, d: nat)
    ensures
        node_lines(st, n, d) == shifted(node_lines(st, n, 0), d),
    decreases node_size(n), 3nat,
{
    match n {
        NodeM::If(i) => lemma_if_shift(st, i, d),
        _ => lemma_shift_single(leaf_text(st, n), d),
    }
}

/// The lines of a block body at depth `d + 1`, seen from depth `d`.
proof fn lemma_body_shift(st: Style, ns: Seq<NodeM>, d: nat)
    requires
        forall|e: nat| block_lines(st, ns, e) == shifted(block_lines(st, ns, 0), e),
    ensures
        block_lines(st, ns, d + 1) == shifted(block_lines(st, ns, 1), d),
{
    lemma_shift_compose(block_lines(st, ns, 0), 1, d);
    assert(block_lines(st, ns, 1) == shifted(block_lines(st, ns, 0), 1));
    assert(block_lines(st, ns, d + 1) == shifted(block_lines(st, ns, 0), d + 1));
}

proof fn lemma_if_shift(st: Style, i: IfM, d: nat)
    ensures
        if_lines(st, i, d) == shifted(if_lines(st, i, 0), d),
    decreases node_size(NodeM::If(i)) - 1, 2nat,
{
    assert forall|e: nat| block_lines(st, i.body, e) == shifted(block_lines(st, i.body, 0), e) by {
        lemma_block_shift(st, i.body, e);
    }
    assert forall|e: nat| block_lines(st, i.else_, e) == shifted(block_lines(st, i.else_, 0), e) by {
        lemma_block_shift(st, i.else_, e);
    }
    lemma_body_shift(st, i.body, d);
    lemma_body_shift(st, i.else_, d);
    lemma_branch_shift(st, i.elifs, d);
    lemma_shift_single(if_open(st, cond_text(st, i.cond)), d);
    lemma_shift_single(else_open(st), d);
    lemma_shift_single(if_close(st), d);
    let head = seq![indented(if_open(st, cond_text(st, i.cond)), 0)];
    let body = block_lines(st, i.body, 1);
    let br = branch_lines(st, i.elifs, 0);
    let el = if i.else_.len() > 0 {
        seq![indented(else_open(st), 0)] + block_lines(st, i.else_, 1)
    } else {
        Seq::empty()
    };
    let tail = seq![indented(if_close(st), 0)];
    lemma_shift_concat(head, body, d);
    lemma_shift_concat(head + body, br, d);
    lemma_shift_concat(head + body + br, el, d);
    lemma_shift_concat(head + body + br + el, tail, d);
    if i.else_.len() > 0 {
        lemma_shift_concat(seq![indented(else_open(st), 0)], block_lines(st, i.else_, 1), d);
    } else {
        assert(shifted(el, d) =~= Seq::<Seq<char>>::empty());
    }
}

proof fn lemma_branch_shift(st: Style, es: Seq<(CondM, Seq<NodeM>)>, d: nat)
    ensures
        branch_lines(st, es, d) == shifted(branch_lines(st, es, 0), d),
    decreases elifs_size(es), 1nat,
{
    if es.len() == 0 {
        assert(shifted(branch_lines(st, es, 0), d) =~= branch_lines(st, es, d));
    } else {
        assert forall|e: nat| block_lines(st, es[0].1, e) == shifted(block_lines(st, es[0].1, 0), e) by {
            lemma_block_shift(st, es[0].1, e);
        }
        lemma_body_shift(st, es[0].1, d);
        lemma_branch_shift(st, es.drop_first(), d);
        lemma_shift_single(elif_open(st, cond_text(st, es[0].0)), d);
        let head = seq![indented(elif_open(st, cond_text(st, es[0].0)), 0)];
        let body = block_lines(st, es[0].1, 1);
        lemma_shift_concat(head, body, d);
        lemma_shift_concat(head + body, branch_lines(st, es.drop_first(), 0), d);
    }
}

/// The lines of an `if` block at depth `d` are its lines at depth 0, each
/// indented by `d` more levels.
pub proof fn if_lines_at_depth(st: Style, i: IfM, d: nat)
    ensures
        if_lines(st, i, d) == shifted(if_lines(st, i, 0), d),
{
    lemma_if_shift(st, i, d);
}

/// The lines of statements at depth `d` are their lines at depth 0, each
/// indented by `d` more levels.
pub proof fn block_lines_at_depth(st: Style, ns: Seq<NodeM>, d: nat)
    ensures
        block_lines(st, ns, d) == shifted(block_lines(st, ns, 0), d),
{
    lemma_block_shift(st, ns, d);
}

/// `lines` joined with newlines.
pub fn join_lines(lines: &[String]) -> (r: String)
    ensures
        r@ == join_with(strs_view(lines@), "\n"@),
{
    let r = join_from(lines, 0, "\n");
    assert(strs_view(lines@).skip(0) =~= strs_view(lines@));
    r
}

/// `args` with every `{shell}` replaced by `word`, then trimmed.
pub fn substitute_shell(args: &str, word: &str) -> (r: String)
    ensures
        r@ == call_args(args@, word@),
{
    proof {
        reveal_strlit("{shell}");
    }
    let replaced = replace_text(args, "{shell}", word);
    trim_text(replaced.as_str())
}

/// A shell back end.
pub trait Emitter {
    /// The dialect this emitter writes.
    spec fn style(&self) -> Style;

    /// The canonical shell name (e.g. "bash", "fish").
    fn name(&self) -> (r: &str)
        ensures
            r@ == style_name(self.style()),
    ;

    /// Emit `nodes` at indent `depth`, one `String` per output line.
    fn emit_nodes(&self, nodes: &[Node], depth: usize) -> (out: Vec<String>)
        requires
            depth + seq_size(nodes_model(nodes@)) <= usize::MAX,
        ensures
            strs_view(out@) == block_lines(self.style(), nodes_model(nodes@), depth as nat),
    ;

    /// Expand `{shell}` in `args` with the name the target's tools expect, then trim.
    fn resolve_call_args(&self, args: &str) -> (r: String)
        ensures
            r@ == call_args(args@, call_word(self.style())),
    ;

    /// Render the full node list to a newline-joined `String`.
    fn render(&self, nodes: &[Node]) -> (r: String)
        requires
            seq_size(nodes_model(nodes@)) <= usize::MAX,
        ensures
            r@ == join_with(block_lines(self.style(), nodes_model(nodes@), 0), "\n"@),
    {
        let lines = self.emit_nodes(nodes, 0);
        join_lines(lines.as_slice())
    }

    /// Return `s` prefixed by `depth * 2` spaces.
    fn indent(&self, s: String, depth: usize) -> (r: String)
        ensures
            r@ == indented(s@, depth as nat),
    {
        indent(s, depth)
    }

    /// `prefix + cmd [+ " " + args] + suffix`, with `{shell}` expanded in `args`.
    fn format_call(&self, cmd: &str, args: &str, prefix: &str, suffix: &str) -> (r: String)
        ensures
            r@ == call_text(prefix@, cmd@, call_args(args@, call_word(self.style())), suffix@),
    {
        let a = self.resolve_call_args(args);
        let mut s = String::from_str(prefix);
        s.append(cmd);
        if !a.as_str().is_empty() {
            s.append(" ");
            s.append(a.as_str());
        }
        s.append(suffix);
        s
    }
}


/// The dialect a target shell name selects, if it names one.
pub open spec fn style_for(shell: Seq<char>) -> Option<Style> {
    if shell == "bash"@ {
        Some(Style::Posix("bash"@))
    } else if shell == "zsh"@ {
        Some(Style::Posix("zsh"@))
    } else if shell == "fish"@ {
        Some(Style::Fish)
    } else if shell == "pwsh"@ {
        Some(Style::Pwsh)
    } else {
        None
    }
}

/// The script for `nodes` in dialect `st`: its lines joined with newlines.
pub open spec fn script(st: Style, nodes: Seq<NodeM>) -> Seq<char> {
    join_with(block_lines(st, nodes, 0), "\n"@)
}

/// The message for a target shell name that names no dialect.
pub open spec fn unknown_shell(shell: Seq<char>) -> Seq<char> {
    "unknown shell "@ + debug_text(shell) + " — choose: bash, zsh, fish, pwsh"@
}

/// Render `ast` to a shell-specific string for the named `shell`.
/// Returns an error for unknown shell names.
pub fn emit(shell: &str, ast: &[Node]) -> (r: Result<String, String>)
    requires
        seq_size(nodes_model(ast@)) <= usize::MAX,
    ensures
        match style_for(shell@) {
            Some(st) => r matches Ok(out) && out@ == script(st, nodes_model(ast@)),
            None => r matches Err(e) && e@ == unknown_shell(shell@),
        },
{
    proof {
        reveal_strlit("bash");
        reveal_strlit("zsh");
        reveal_strlit("fish");
        reveal_strlit("pwsh");
    }
    if same_text(shell, "bash") {
        Ok(BashEmitter::new("bash").render(ast))
    } else if same_text(shell, "zsh") {
        Ok(BashEmitter::new("zsh").render(ast))
    } else if same_text(shell, "fish") {
        Ok(FishEmitter.render(ast))
    } else if same_text(shell, "pwsh") {
        Ok(PwshEmitter.render(ast))
    } else {
        let mut m = String::from_str("unknown shell ");
        let q = debug_quoted(shell);
        m.append(q.as_str());
        m.append(" — choose: bash, zsh, fish, pwsh");
        Err(m)
    }
}

/// `seq_size` of the statements `nodes`, when it fits in a `usize`.
///
/// `emit` and `Emitter::render` need this bound, and a caller tests it here.
pub fn tree_size(nodes: &[Node]) -> (r: Option<usize>)
    ensures
        r matches Some(n) ==> n == seq_size(nodes_model(nodes@)),
        r is None ==> seq_size(nodes_model(nodes@)) > usize::MAX,
    decreases seq_size(nodes_model(nodes@)), 1nat,
{
    let ghost m = nodes_model(nodes@);
    proof {
        lemma_nodes_model(nodes@);
        lemma_seq_size(m);
    }
    let mut acc: usize = 0;
    let mut i: usize = 0;
    assert(m.take(0) =~= Seq::<NodeM>::empty());
    while i < nodes.len()
        invariant
            i <= nodes@.len(),
            m == nodes_model(nodes@),
            m.len() == nodes@.len(),
            forall|j: int| 0 <= j < nodes@.len() ==> #[trigger] m[j] == node_model(nodes@[j]),
            forall|j: int| 0 <= j < m.len() ==> node_size(#[trigger] m[j]) < seq_size(m),
            forall|a: int, b: int| 0 <= a <= b <= m.len() ==> seq_size(#[trigger] m.subrange(a, b)) <= seq_size(m),
            acc == seq_size(m.take(i as int)),
        decreases nodes@.len() - i,
    {
        assert(m.take(i + 1).drop_last() =~= m.take(i as int));
        assert(m.take(i + 1).last() == m[i as int]);
        assert(m.take(i + 1) == m.subrange(0, i + 1));
        let k = match node_tree_size(&nodes[i]) {
            Some(k) => k,
            None => return None,
        };
        let next = match acc.checked_add(k) {
            Some(x) => x,
            None => return None,
        };
        acc = match next.checked_add(1) {
            Some(x) => x,
            None => return None,
        };
        i = i + 1;
    }
    assert(m.take(i as int) =~= m);
    Some(acc)
}

/// `node_size` of one statement, when it fits in a `usize`.
fn node_tree_size(n: &Node) -> (r: Option<usize>)
    ensures
        r matches Some(k) ==> k == node_size(node_model(*n)),
        r is None ==> node_size(node_model(*n)) > usize::MAX,
    decreases node_size(node_model(*n)), 1nat,
{
    match n {
        Node::If(i) => {
            let ghost im = if_model(*i);
            let b = match tree_size(i.body.as_slice()) {
                Some(b) => b,
                None => return None,
            };
            let e = match elifs_tree_size(i) {
                Some(e) => e,
                None => return None,
            };
            let el = match tree_size(i.else_.as_slice()) {
                Some(x) => x,
                None => return None,
            };
            let s1 = match b.checked_add(e) {
                Some(x) => x,
                None => return None,
            };
            let s2 = match s1.checked_add(el) {
                Some(x) => x,
                None => return None,
            };
            s2.checked_add(2)
        },
        _ => Some(1),
    }
}

/// `elifs_size` of the `elif` branches of `i`, when it fits in a `usize`.
fn elifs_tree_size(i: &IfNode) -> (r: Option<usize>)
    ensures
        r matches Some(k) ==> k == elifs_size(elifs_model(i.elifs@)),
        r is None ==> elifs_size(elifs_model(i.elifs@)) > usize::MAX,
    decreases node_size(NodeM::If(if_model(*i))), 0nat,
{
    let ghost es = elifs_model(i.elifs@);
    proof {
        lemma_elifs_model(i.elifs@);
        lemma_elifs_size(es);
    }
    let mut acc: usize = 0;
    let mut k: usize = i.elifs.len();
    assert(es.skip(k as int) =~= Seq::<(CondM, Seq<NodeM>)>::empty());
    while k > 0
        invariant
            k <= i.elifs@.len(),
            es == elifs_model(i.elifs@),
            es.len() == i.elifs@.len(),
            forall|j: int| 0 <= j < i.elifs@.len() ==> #[trigger] es[j] == (cond_model(i.elifs@[j].0), nodes_model(i.elifs@[j].1@)),
            forall|j: int| 0 <= j < es.len() ==> seq_size(#[trigger] es[j].1) < elifs_size(es),
            forall|j: int| 0 <= j <= es.len() ==> elifs_size(#[trigger] es.skip(j)) <= elifs_size(es),
            elifs_size(es) < node_size(NodeM::If(if_model(*i))),
            acc == elifs_size(es.skip(k as int)),
        decreases k,
    {
        k = k - 1;
        assert(es.skip(k as int).drop_first() =~= es.skip(k + 1));
        assert(es.skip(k as int)[0] == es[k as int]);
        let b = match tree_size(i.elifs[k].1.as_slice()) {
            Some(b) => b,
            None => return None,
        };
        let s = match acc.checked_add(b) {
            Some(x) => x,
            None => return None,
        };
        acc = match s.checked_add(1) {
            Some(x) => x,
            None => return None,
        };
    }
    assert(es.skip(0) =~= es);
    Some(acc)
}
} // verus!
