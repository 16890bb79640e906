//! Pruning pass: removes `if` branches that the compile target decides statically.
//!
//! `shell <name>` is always decided by the target shell. `os <name>` is decided
//! for the three known names when the build host is one of them. `have`,
//! `exists` and `env` are runtime checks and are never folded.
use vstd::prelude::*;
use crate::ast::{
    Cond, CondM, IfM, IfNode, Node, NodeM, cond_model, elifs_model, elifs_size, if_model, lemma_elifs_model, lemma_elifs_model_sub,
    lemma_elifs_size, lemma_nodes_model, lemma_nodes_model_concat, lemma_seq_size, node_model,
    node_size, nodes_model, seq_size,
};
use crate::text::same_text;

verus! {

/// The operating system the compiler itself was built for.
#[derive(Debug, Clone, Copy, PartialEq, Eq, Structural)]
pub enum HostOs {
    Darwin,
    Linux,
    Windows,
    Other,
}

/// The `os` name that denotes the host, if the host is one of the known three.
pub open spec fn host_name(h: HostOs) -> Option<Seq<char>> {
    match h {
        HostOs::Darwin => Some("darwin"@),
        HostOs::Linux => Some("linux"@),
        HostOs::Windows => Some("windows"@),
        HostOs::Other => None,
    }
}

/// One of the `os` names that the pass can decide.
pub open spec fn known_os(n: Seq<char>) -> bool {
    n == "darwin"@ || n == "linux"@ || n == "windows"@
}

/// Outcome of statically evaluating a condition.
pub enum Fold {
    True,
    False,
    Unknown(CondM),
}

/// Static value of `os n` on `host`, when the pass can decide it.
pub open spec fn os_fold(n: Seq<char>, host: HostOs) -> Option<bool> {
    match host_name(host) {
        Some(h) => if known_os(n) {
            Some(n == h)
        } else {
            None
        },
        None => None,
    }
}

pub open spec fn and_fold(l: Fold, r: Fold) -> Fold {
    match (l, r) {
        (Fold::False, _) => Fold::False,
        (_, Fold::False) => Fold::False,
        (Fold::True, r) => r,
        (l, Fold::True) => l,
        (Fold::Unknown(a), Fold::Unknown(b)) => Fold::Unknown(CondM::And(Box::new(a), Box::new(b))),
    }
}

pub open spec fn or_fold(l: Fold, r: Fold) -> Fold {
    match (l, r) {
        (Fold::True, _) => Fold::True,
        (_, Fold::True) => Fold::True,
        (Fold::False, r) => r,
        (l, Fold::False) => l,
        (Fold::Unknown(a), Fold::Unknown(b)) => Fold::Unknown(CondM::Or(Box::new(a), Box::new(b))),
    }
}

/// Reduce a condition for target shell `sh` on build host `host`.
pub open spec fn fold_cond(c: CondM, sh: Seq<char>, host: HostOs) -> Fold
    decreases c,
{
    match c {
        CondM::Shell(n) => if n == sh {
            Fold::True
        } else {
            Fold::False
        },
        CondM::Os(n) => match os_fold(n, host) {
            Some(true) => Fold::True,
            Some(false) => Fold::False,
            None => Fold::Unknown(c),
        },
        CondM::Not(a) => match fold_cond(*a, sh, host) {
            Fold::True => Fold::False,
            Fold::False => Fold::True,
            Fold::Unknown(x) => Fold::Unknown(CondM::Not(Box::new(x))),
        },
        CondM::And(a, b) => and_fold(fold_cond(*a, sh, host), fold_cond(*b, sh, host)),
        CondM::Or(a, b) => or_fold(fold_cond(*a, sh, host), fold_cond(*b, sh, host)),
        _ => Fold::Unknown(c),
    }
}

/// The pruned form of a statement list.
pub open spec fn pruned_seq(ns: Seq<NodeM>, sh: Seq<char>, host: HostOs) -> Seq<NodeM>
    decreases seq_size(ns), 0nat,
{
    if ns.len() == 0 {
        Seq::empty()
    } else {
        pruned_seq(ns.drop_last(), sh, host) + pruned_node(ns.last(), sh, host)
    }
}

/// What one statement becomes: itself, or for an `if`, what `pruned_if` gives.
pub open spec fn pruned_node(n: NodeM, sh: Seq<char>, host: HostOs) -> Seq<NodeM>
    decreases node_size(n), 4nat,
{
    match n {
        NodeM::If(i) => pruned_if(i, sh, host),
        _ => seq![n],
    }
}

/// What an `if` block becomes.
pub open spec fn pruned_if(i: IfM, sh: Seq<char>, host: HostOs) -> Seq<NodeM>
    decreases node_size(NodeM::If(i)) - 1, 3nat,
{
    match fold_cond(i.cond, sh, host) {
        Fold::True => pruned_seq(i.body, sh, host),
        Fold::False => pruned_false_head(i.elifs, i.else_, sh, host),
        Fold::Unknown(k) => {
            let t = pruned_tail(i.elifs, i.else_, sh, host);
            seq![NodeM::If(IfM { cond: k, body: pruned_seq(i.body, sh, host), elifs: t.0, else_: t.1 })]
        },
    }
}

/// The `elif`/`else` chain of an `if` whose head is statically false.
pub open spec fn pruned_false_head(
    es: Seq<(CondM, Seq<NodeM>)>,
    el: Seq<NodeM>,
    sh: Seq<char>,
    host: HostOs,
) -> Seq<NodeM>
    decreases elifs_size(es) + seq_size(el), 2nat,
{
    if es.len() == 0 {
        pruned_seq(el, sh, host)
    } else {
        match fold_cond(es[0].0, sh, host) {
            Fold::False => pruned_false_head(es.drop_first(), el, sh, host),
            Fold::True => pruned_seq(es[0].1, sh, host),
            Fold::Unknown(k) => {
                let t = pruned_tail(es.drop_first(), el, sh, host);
                seq![NodeM::If(IfM { cond: k, body: pruned_seq(es[0].1, sh, host), elifs: t.0, else_: t.1 })]
            },
        }
    }
}

/// The `elif` branches and `else` body that follow an undecided condition:
/// a branch the target rules out is dropped; the first branch the target
/// decides true becomes the `else` body, and what follows it is dropped;
/// an undecided branch stays, with its condition reduced and its body pruned.
pub open spec fn pruned_tail(
    es: Seq<(CondM, Seq<NodeM>)>,
    el: Seq<NodeM>,
    sh: Seq<char>,
    host: HostOs,
) -> (Seq<(CondM, Seq<NodeM>)>, Seq<NodeM>)
    decreases elifs_size(es) + seq_size(el), 1nat,
{
    if es.len() == 0 {
        (Seq::empty(), pruned_seq(el, sh, host))
    } else {
        match fold_cond(es[0].0, sh, host) {
            Fold::False => pruned_tail(es.drop_first(), el, sh, host),
            Fold::True => (Seq::empty(), pruned_seq(es[0].1, sh, host)),
            Fold::Unknown(k) => {
                let t = pruned_tail(es.drop_first(), el, sh, host);
                (seq![(k, pruned_seq(es[0].1, sh, host))] + t.0, t.1)
            },
        }
    }
}

/// Outcome of statically evaluating a condition for a target shell.
enum CondResult {
    AlwaysTrue,
    AlwaysFalse,
    Unknown(Cond),
}

spec fn result_model(r: CondResult) -> Fold {
    match r {
        CondResult::AlwaysTrue => Fold::True,
        CondResult::AlwaysFalse => Fold::False,
        CondResult::Unknown(c) => Fold::Unknown(cond_model(c)),
    }
}

/// Static value of `os name` on `host`, when the pass can decide it.
fn fold_os(name: &str, host: HostOs) -> (r: Option<bool>)
    ensures
        r == os_fold(name@, host),
{
    let darwin = same_text(name, "darwin");
    let linux = same_text(name, "linux");
    let windows = same_text(name, "windows");
    if !(darwin || linux || windows) {
        return None;
    }
    match host {
        HostOs::Darwin => Some(darwin),
        HostOs::Linux => Some(linux),
        HostOs::Windows => Some(windows),
        HostOs::Other => None,
    }
}

/// Reduce `cond` for the target `shell` on build host `host`.
fn prune_cond(cond: Cond, shell: &str, host: HostOs) -> (r: CondResult)
    ensures
        result_model(r) == fold_cond(cond_model(cond), shell@, host),
    decreases cond,
{
    match cond {
        Cond::Shell(name) => {
            if same_text(name.as_str(), shell) {
                CondResult::AlwaysTrue
            } else {
                CondResult::AlwaysFalse
            }
        },
        Cond::Os(name) => match fold_os(name.as_str(), host) {
            Some(true) => CondResult::AlwaysTrue,
            Some(false) => CondResult::AlwaysFalse,
            None => CondResult::Unknown(Cond::Os(name)),
        },
        Cond::Have(x) => CondResult::Unknown(Cond::Have(x)),
        Cond::Exists(x) => CondResult::Unknown(Cond::Exists(x)),
        Cond::Env(x) => CondResult::Unknown(Cond::Env(x)),
        Cond::Not(inner) => match prune_cond(*inner, shell, host) {
            CondResult::AlwaysTrue => CondResult::AlwaysFalse,
            CondResult::AlwaysFalse => CondResult::AlwaysTrue,
            CondResult::Unknown(c) => CondResult::Unknown(Cond::Not(Box::new(c))),
        },
        Cond::And(lhs, rhs) => {
            let l = prune_cond(*lhs, shell, host);
            let r = prune_cond(*rhs, shell, host);
            fold_and(l, r)
        },
        Cond::Or(lhs, rhs) => {
            let l = prune_cond(*lhs, shell, host);
            let r = prune_cond(*rhs, shell, host);
            fold_or(l, r)
        },
    }
}

/// Short-circuit and identity folding for `and`.
fn fold_and(l: CondResult, r: CondResult) -> (out: CondResult)
    ensures
        result_model(out) == and_fold(result_model(l), result_model(r)),
{
    match (l, r) {
        (CondResult::AlwaysFalse, _) => CondResult::AlwaysFalse,
        (_, CondResult::AlwaysFalse) => CondResult::AlwaysFalse,
        (CondResult::AlwaysTrue, r) => r,
        (l, CondResult::AlwaysTrue) => l,
        (CondResult::Unknown(lc), CondResult::Unknown(rc)) => CondResult::Unknown(
            Cond::And(Box::new(lc), Box::new(rc)),
        ),
    }
}

/// Short-circuit and identity folding for `or`.
fn fold_or(l: CondResult, r: CondResult) -> (out: CondResult)
    ensures
        result_model(out) == or_fold(result_model(l), result_model(r)),
{
    match (l, r) {
        (CondResult::AlwaysTrue, _) => CondResult::AlwaysTrue,
        (_, CondResult::AlwaysTrue) => CondResult::AlwaysTrue,
        (CondResult::AlwaysFalse, r) => r,
        (l, CondResult::AlwaysFalse) => l,
        (CondResult::Unknown(lc), CondResult::Unknown(rc)) => CondResult::Unknown(
            Cond::Or(Box::new(lc), Box::new(rc)),
        ),
    }
}

/// Pruning distributes over concatenation.
pub proof fn lemma_pruned_seq_concat(a: Seq<NodeM>, b: Seq<NodeM>, sh: Seq<char>, host: HostOs)
    ensures
        pruned_seq(a + b, sh, host) == pruned_seq(a, sh, host) + pruned_seq(b, sh, host),
    decreases b.len(),
{
    if b.len() == 0 {
        assert(a + b =~= a);
        assert(pruned_seq(a, sh, host) + pruned_seq(b, sh, host) =~= pruned_seq(a, sh, host));
    } else {
        lemma_pruned_seq_concat(a, b.drop_last(), sh, host);
        assert((a + b).drop_last() =~= a + b.drop_last());
        assert((a + b).last() == b.last());
        assert(pruned_seq(a + b, sh, host) =~= pruned_seq(a, sh, host) + pruned_seq(b, sh, host));
    }
}

/// Prune `nodes` for the target `shell` (`bash`, `zsh`, `fish` or `pwsh`)
/// on build host `host`.
///
/// Every `if` whose condition the target decides is replaced by the branch that
/// runs (or dropped when none does). An undecided `if` is kept with its bodies
/// pruned; among its `elif` branches, those the target rules out are dropped and
/// the first one it decides true becomes the `else` body. Other statements pass
/// through unchanged.
pub fn prune_nodes(nodes: Vec<Node>, shell: &str, host: HostOs) -> (out: Vec<Node>)
    ensures
        nodes_model(out@) == pruned_seq(nodes_model(nodes@), shell@, host),
    decreases seq_size(nodes_model(nodes@)), 0nat,
{
    let ghost m = nodes_model(nodes@);
    let ghost all = nodes@;
    proof {
        lemma_nodes_model(nodes@);
        lemma_seq_size(m);
    }
    let mut rest = nodes;
    let mut out: Vec<Node> = Vec::new();
    let ghost mut k: int = 0;
    assert(m.take(0) =~= Seq::<NodeM>::empty());
    assert(all.skip(0) =~= all);
    #[verifier::loop_isolation(false)]
    while rest.len() > 0
        invariant
            0 <= k <= all.len(),
            m == nodes_model(all),
            m.len() == all.len(),
            forall|i: int| 0 <= i < all.len() ==> #[trigger] m[i] == node_model(all[i]),
            forall|i: int| 0 <= i < m.len() ==> node_size(#[trigger] m[i]) < seq_size(m),
            rest@ == all.skip(k),
            nodes_model(out@) == pruned_seq(m.take(k), shell@, host),
        decreases rest.len(),
    {
        let ghost out0 = out@;
        let n = rest.remove(0);
        assert(n == all[k]);
        let ghost nm = m[k];
        assert(m.take(k + 1).drop_last() =~= m.take(k));
        match n {
            Node::If(inode) => {
                assert(nm == NodeM::If(if_model(inode)));
                let mut v = prune_if(inode, shell, host);
                let ghost vm = v@;
                out.append(&mut v);
                proof {
                    lemma_nodes_model_concat(out0, vm);
                }
            },
            other => {
                assert(nm == node_model(other));
                out.push(other);
                assert(out@.drop_last() =~= out0);
                assert(pruned_node(nm, shell@, host) == seq![nm]);
                assert(nodes_model(out@) =~= nodes_model(out0) + seq![nm]);
            },
        }
        proof {
            assert(seq![nm].drop_last() =~= Seq::<NodeM>::empty());
            assert(seq![nm].last() == nm);
            assert(pruned_seq(Seq::<NodeM>::empty(), shell@, host) =~= Seq::<NodeM>::empty());
            assert(pruned_seq(seq![nm], shell@, host) =~= pruned_node(nm, shell@, host));
            lemma_pruned_seq_concat(m.take(k), seq![nm], shell@, host);
            assert(m.take(k) + seq![nm] =~= m.take(k + 1));
            k = k + 1;
        }
        assert(rest@ =~= all.skip(k));
    }
    assert(m.take(k) =~= m);
    out
}

/// What an `if` block becomes for the target.
fn prune_if(inode: IfNode, shell: &str, host: HostOs) -> (out: Vec<Node>)
    ensures
        nodes_model(out@) == pruned_if(if_model(inode), shell@, host),
    decreases node_size(NodeM::If(if_model(inode))) - 1, 3nat,
{
    let IfNode { cond, body, elifs, else_ } = inode;
    match prune_cond(cond, shell, host) {
        CondResult::AlwaysTrue => prune_nodes(body, shell, host),
        CondResult::AlwaysFalse => prune_false_head(elifs, else_, shell, host),
        CondResult::Unknown(kept) => {
            let b = prune_nodes(body, shell, host);
            let (e, el) = prune_tail(elifs, else_, shell, host);
            let n = Node::If(IfNode { cond: kept, body: b, elifs: e, else_: el });
            let mut out: Vec<Node> = Vec::new();
            out.push(n);
            proof {
                lemma_nodes_model(out@);
            }
            assert(nodes_model(out@) =~= seq![node_model(n)]);
            out
        },
    }
}

/// The `elif`/`else` chain of an `if` whose head is statically false.
fn prune_false_head(
    elifs: Vec<(Cond, Vec<Node>)>,
    else_: Vec<Node>,
    shell: &str,
    host: HostOs,
) -> (out: Vec<Node>)
    ensures
        nodes_model(out@) == pruned_false_head(
            elifs_model(elifs@),
            nodes_model(else_@),
            shell@,
            host,
        ),
    decreases elifs_size(elifs_model(elifs@)) + seq_size(nodes_model(else_@)), 2nat,
{
    let ghost es = elifs_model(elifs@);
    let ghost el = nodes_model(else_@);
    let ghost all = elifs@;
    proof {
        lemma_elifs_model(all);
        lemma_elifs_size(es);
    }
    let mut rest = elifs;
    let ghost mut k: int = 0;
    assert(all.skip(0) =~= all);
    assert(es.skip(0) =~= es);
    #[verifier::loop_isolation(false)]
    while rest.len() > 0
        invariant
            0 <= k <= all.len(),
            es == elifs_model(all),
            es.len() == all.len(),
            el == nodes_model(else_@),
            forall|i: int|
                0 <= i < all.len() ==> #[trigger] es[i] == (
                    cond_model(all[i].0),
                    nodes_model(all[i].1@),
                ),
            forall|i: int| 0 <= i < es.len() ==> seq_size(#[trigger] es[i].1) < elifs_size(es),
            forall|j: int| 0 <= j <= es.len() ==> elifs_size(#[trigger] es.skip(j)) <= elifs_size(es),
            rest@ == all.skip(k),
            pruned_false_head(es, el, shell@, host) == pruned_false_head(es.skip(k), el, shell@, host),
        decreases rest.len(),
    {
        let (c, b) = rest.remove(0);
        assert((c, b) == all[k]);
        let ghost tail = es.skip(k);
        assert(tail[0] == es[k]);
        assert(tail.drop_first() =~= es.skip(k + 1));
        assert(rest@ =~= all.skip(k + 1));
        proof {
            lemma_elifs_model_sub(all, k + 1, all.len() as int);
            assert(all.subrange(k + 1, all.len() as int) =~= all.skip(k + 1));
            assert(es.subrange(k + 1, es.len() as int) =~= es.skip(k + 1));
        }
        match prune_cond(c, shell, host) {
            CondResult::AlwaysFalse => {
                proof {
                    k = k + 1;
                }
            },
            CondResult::AlwaysTrue => {
                return prune_nodes(b, shell, host);
            },
            CondResult::Unknown(kept) => {
                let pb = prune_nodes(b, shell, host);
                let (pe, pel) = prune_tail(rest, else_, shell, host);
                let n = Node::If(IfNode { cond: kept, body: pb, elifs: pe, else_: pel });
                let mut out: Vec<Node> = Vec::new();
                out.push(n);
                proof {
                    lemma_nodes_model(out@);
                }
                assert(nodes_model(out@) =~= seq![node_model(n)]);
                return out;
            },
        }
    }
    assert(es.skip(k) =~= Seq::<(CondM, Seq<NodeM>)>::empty());
    prune_nodes(else_, shell, host)
}

/// The `elif` branches and `else` body after an undecided condition, pruned:
/// ruled-out branches dropped, the first branch decided true made the `else`.
fn prune_tail(
    elifs: Vec<(Cond, Vec<Node>)>,
    else_: Vec<Node>,
    shell: &str,
    host: HostOs,
) -> (out: (Vec<(Cond, Vec<Node>)>, Vec<Node>))
    ensures
        (elifs_model(out.0@), nodes_model(out.1@)) == pruned_tail(
            elifs_model(elifs@),
            nodes_model(else_@),
            shell@,
            host,
        ),
    decreases elifs_size(elifs_model(elifs@)) + seq_size(nodes_model(else_@)), 1nat,
{
    let ghost es = elifs_model(elifs@);
    let ghost el = nodes_model(else_@);
    let ghost all = elifs@;
    proof {
        lemma_elifs_model(all);
        lemma_elifs_size(es);
    }
    let mut rest = elifs;
    let mut out: Vec<(Cond, Vec<Node>)> = Vec::new();
    let ghost mut k: int = 0;
    assert(all.skip(0) =~= all);
    assert(es.skip(0) =~= es);
    assert(elifs_model(out@) =~= Seq::<(CondM, Seq<NodeM>)>::empty());
    assert(elifs_model(out@) + pruned_tail(es, el, shell@, host).0 =~= pruned_tail(es, el, shell@, host).0);
    #[verifier::loop_isolation(false)]
    while rest.len() > 0
        invariant
            0 <= k <= all.len(),
            es == elifs_model(all),
            es.len() == all.len(),
            el == nodes_model(else_@),
            forall|i: int|
                0 <= i < all.len() ==> #[trigger] es[i] == (
                    cond_model(all[i].0),
                    nodes_model(all[i].1@),
                ),
            forall|i: int| 0 <= i < es.len() ==> seq_size(#[trigger] es[i].1) < elifs_size(es),
            rest@ == all.skip(k),
            pruned_tail(es, el, shell@, host) == (
                elifs_model(out@) + pruned_tail(es.skip(k), el, shell@, host).0,
                pruned_tail(es.skip(k), el, shell@, host).1,
            ),
        decreases rest.len(),
    {
        let ghost out0 = out@;
        let (c, b) = rest.remove(0);
        assert((c, b) == all[k]);
        let ghost tail = es.skip(k);
        assert(tail[0] == es[k]);
        assert(tail.drop_first() =~= es.skip(k + 1));
        assert(rest@ =~= all.skip(k + 1));
        match prune_cond(c, shell, host) {
            CondResult::AlwaysFalse => {
                proof {
                    k = k + 1;
                }
            },
            CondResult::AlwaysTrue => {
                let pb = prune_nodes(b, shell, host);
                assert(elifs_model(out@) + Seq::<(CondM, Seq<NodeM>)>::empty() =~= elifs_model(out@));
                return (out, pb);
            },
            CondResult::Unknown(kept) => {
                let pb = prune_nodes(b, shell, host);
                let ghost entry = (cond_model(kept), nodes_model(pb@));
                out.push((kept, pb));
                proof {
                    assert(out@.drop_last() =~= out0);
                    assert(elifs_model(out@) == elifs_model(out0).push(entry));
                    let t = pruned_tail(es.skip(k + 1), el, shell@, host);
                    assert(elifs_model(out0) + (seq![entry] + t.0) =~= elifs_model(out@) + t.0);
                    k = k + 1;
                }
            },
        }
    }
    assert(es.skip(k) =~= Seq::<(CondM, Seq<NodeM>)>::empty());
    let pel = prune_nodes(else_, shell, host);
    assert(elifs_model(out@) + Seq::<(CondM, Seq<NodeM>)>::empty() =~= elifs_model(out@));
    (out, pel)
}

// ── what a script does ───────────────────────────────────────────────────────

/// A machine that runs a generated script: the shell running it, its operating
/// system, and the commands, paths and environment variables it has.
pub struct Machine {
    pub shell: Seq<char>,
    pub os: Seq<char>,
    pub has_command: spec_fn(Seq<char>) -> bool,
    pub has_path: spec_fn(Seq<char>) -> bool,
    pub has_var: spec_fn(Seq<char>) -> bool,
}

/// Whether condition `c` holds on machine `m`.
pub open spec fn holds(c: CondM, m: Machine) -> bool
    decreases c,
{
    match c {
        CondM::Have(x) => (m.has_command)(x),
        CondM::Exists(x) => (m.has_path)(x),
        CondM::Env(x) => (m.has_var)(x),
        CondM::Os(x) => x == m.os,
        CondM::Shell(x) => x == m.shell,
        CondM::Not(a) => !holds(*a, m),
        CondM::And(a, b) => holds(*a, m) && holds(*b, m),
        CondM::Or(a, b) => holds(*a, m) || holds(*b, m),
    }
}

/// The `set`/`path`/`call`/`alias` statements that `ns` performs on `m`, in order.
pub open spec fn run_seq(ns: Seq<NodeM>, m: Machine) -> Seq<NodeM>
    decreases seq_size(ns), 0nat,
{
    if ns.len() == 0 {
        Seq::empty()
    } else {
        run_seq(ns.drop_last(), m) + run_node(ns.last(), m)
    }
}

pub open spec fn run_node(n: NodeM, m: Machine) -> Seq<NodeM>
    decreases node_size(n), 4nat,
{
    match n {
        NodeM::If(i) => run_if(i, m),
        _ => seq![n],
    }
}

pub open spec fn run_if(i: IfM, m: Machine) -> Seq<NodeM>
    decreases node_size(NodeM::If(i)) - 1, 3nat,
{
    if holds(i.cond, m) {
        run_seq(i.body, m)
    } else {
        run_chain(i.elifs, i.else_, m)
    }
}

/// The first `elif` whose condition holds runs; when none does, the `else` body.
pub open spec fn run_chain(es: Seq<(CondM, Seq<NodeM>)>, el: Seq<NodeM>, m: Machine) -> Seq<
    NodeM,
>
    decreases elifs_size(es) + seq_size(el), 2nat,
{
    if es.len() == 0 {
        run_seq(el, m)
    } else if holds(es[0].0, m) {
        run_seq(es[0].1, m)
    } else {
        run_chain(es.drop_first(), el, m)
    }
}

/// Machine `m` is one the output for shell `sh` built on `host` is meant for.
pub open spec fn fits(m: Machine, sh: Seq<char>, host: HostOs) -> bool {
    &&& m.shell == sh
    &&& match host_name(host) {
        Some(h) => m.os == h,
        None => true,
    }
}

proof fn lemma_fold_sound(c: CondM, sh: Seq<char>, host: HostOs, m: Machine)
    requires
        fits(m, sh, host),
    ensures
        match fold_cond(c, sh, host) {
            Fold::True => holds(c, m),
            Fold::False => !holds(c, m),
            Fold::Unknown(k) => holds(k, m) == holds(c, m),
        },
    decreases c,
{
    match c {
        CondM::Not(a) => lemma_fold_sound(*a, sh, host, m),
        CondM::And(a, b) => {
            lemma_fold_sound(*a, sh, host, m);
            lemma_fold_sound(*b, sh, host, m);
        },
        CondM::Or(a, b) => {
            lemma_fold_sound(*a, sh, host, m);
            lemma_fold_sound(*b, sh, host, m);
        },
        _ => {},
    }
}

proof fn lemma_run_concat(a: Seq<NodeM>, b: Seq<NodeM>, m: Machine)
    ensures
        run_seq(a + b, m) == run_seq(a, m) + run_seq(b, m),
    decreases b.len(),
{
    if b.len() == 0 {
        assert(a + b =~= a);
        assert(run_seq(a, m) + run_seq(b, m) =~= run_seq(a, m));
    } else {
        lemma_run_concat(a, b.drop_last(), m);
        assert((a + b).drop_last() =~= a + b.drop_last());
        assert((a + b).last() == b.last());
        assert(run_seq(a + b, m) =~= run_seq(a, m) + run_seq(b, m));
    }
}

proof fn lemma_run_single(n: NodeM, m: Machine)
    ensures
        run_seq(seq![n], m) == run_node(n, m),
{
    assert(seq![n].drop_last() =~= Seq::<NodeM>::empty());
    assert(run_seq(Seq::<NodeM>::empty(), m) =~= Seq::<NodeM>::empty());
    assert(run_seq(seq![n], m) =~= run_node(n, m));
}

proof fn lemma_keeps_seq(ns: Seq<NodeM>, sh: Seq<char>, host: HostOs, m: Machine)
    requires
        fits(m, sh, host),
    ensures
        run_seq(pruned_seq(ns, sh, host), m) == run_seq(ns, m),
    decreases seq_size(ns), 0nat,
{
    if ns.len() > 0 {
        lemma_keeps_seq(ns.drop_last(), sh, host, m);
        lemma_keeps_node(ns.last(), sh, host, m);
        lemma_run_concat(pruned_seq(ns.drop_last(), sh, host), pruned_node(ns.last(), sh, host), m);
    }
}

proof fn lemma_keeps_node(n: NodeM, sh: Seq<char>, host: HostOs, m: Machine)
    requires
        fits(m, sh, host),
    ensures
        run_seq(pruned_node(n, sh, host), m) == run_node(n, m),
    decreases node_size(n), 4nat,
{
    match n {
        NodeM::If(i) => lemma_keeps_if(i, sh, host, m),
        _ => lemma_run_single(n, m),
    }
}

proof fn lemma_keeps_if(i: IfM, sh: Seq<char>, host: HostOs, m: Machine)
    requires
        fits(m, sh, host),
    ensures
        run_seq(pruned_if(i, sh, host), m) == run_if(i, m),
    decreases node_size(NodeM::If(i)) - 1, 3nat,
{
    lemma_fold_sound(i.cond, sh, host, m);
    match fold_cond(i.cond, sh, host) {
        Fold::True => lemma_keeps_seq(i.body, sh, host, m),
        Fold::False => lemma_keeps_chain(i.elifs, i.else_, sh, host, m),
        Fold::Unknown(k) => {
            let t = pruned_tail(i.elifs, i.else_, sh, host);
            let new = IfM { cond: k, body: pruned_seq(i.body, sh, host), elifs: t.0, else_: t.1 };
            lemma_run_single(NodeM::If(new), m);
            lemma_keeps_seq(i.body, sh, host, m);
            lemma_keeps_tail(i.elifs, i.else_, sh, host, m);
        },
    }
}

proof fn lemma_keeps_chain(
    es: Seq<(CondM, Seq<NodeM>)>,
    el: Seq<NodeM>,
    sh: Seq<char>,
    host: HostOs,
    m: Machine,
)
    requires
        fits(m, sh, host),
    ensures
        run_seq(pruned_false_head(es, el, sh, host), m) == run_chain(es, el, m),
    decreases elifs_size(es) + seq_size(el), 2nat,
{
    if es.len() == 0 {
        lemma_keeps_seq(el, sh, host, m);
    } else {
        lemma_fold_sound(es[0].0, sh, host, m);
        match fold_cond(es[0].0, sh, host) {
            Fold::False => lemma_keeps_chain(es.drop_first(), el, sh, host, m),
            Fold::True => lemma_keeps_seq(es[0].1, sh, host, m),
            Fold::Unknown(k) => {
                let t = pruned_tail(es.drop_first(), el, sh, host);
                let new = IfM { cond: k, body: pruned_seq(es[0].1, sh, host), elifs: t.0, else_: t.1 };
                lemma_run_single(NodeM::If(new), m);
                lemma_keeps_seq(es[0].1, sh, host, m);
                lemma_keeps_tail(es.drop_first(), el, sh, host, m);
            },
        }
    }
}

proof fn lemma_keeps_tail(
    es: Seq<(CondM, Seq<NodeM>)>,
    el: Seq<NodeM>,
    sh: Seq<char>,
    host: HostOs,
    m: Machine,
)
    requires
        fits(m, sh, host),
    ensures
        run_chain(pruned_tail(es, el, sh, host).0, pruned_tail(es, el, sh, host).1, m) == run_chain(es, el, m),
    decreases elifs_size(es) + seq_size(el), 1nat,
{
    if es.len() == 0 {
        lemma_keeps_seq(el, sh, host, m);
    } else {
        lemma_fold_sound(es[0].0, sh, host, m);
        match fold_cond(es[0].0, sh, host) {
            Fold::False => lemma_keeps_tail(es.drop_first(), el, sh, host, m),
            Fold::True => lemma_keeps_seq(es[0].1, sh, host, m),
            Fold::Unknown(k) => {
                let t = pruned_tail(es.drop_first(), el, sh, host);
                let p = seq![(k, pruned_seq(es[0].1, sh, host))] + t.0;
                assert(p[0] == (k, pruned_seq(es[0].1, sh, host)));
                assert(p.drop_first() =~= t.0);
                lemma_keeps_seq(es[0].1, sh, host, m);
                lemma_keeps_tail(es.drop_first(), el, sh, host, m);
            },
        }
    }
}

/// Pruning does not change what a script does: on every machine that runs the
/// target shell `sh` on the build host's operating system (any system when the
/// host is not one of the three known ones), the pruned statements perform
/// exactly the statements that the unpruned ones perform, in the same order.
pub proof fn prune_keeps_behaviour(ns: Seq<NodeM>, sh: Seq<char>, host: HostOs, m: Machine)
    requires
        fits(m, sh, host),
    ensures
        run_seq(pruned_seq(ns, sh, host), m) == run_seq(ns, m),
{
    lemma_keeps_seq(ns, sh, host, m);
}

// ── what is left after pruning ───────────────────────────────────────────────

/// Neither the target shell nor the build host decides `c` or any part of it.
pub open spec fn undecided(c: CondM, host: HostOs) -> bool
    decreases c,
{
    match c {
        CondM::Shell(_) => false,
        CondM::Os(n) => os_fold(n, host) is None,
        CondM::Not(a) => undecided(*a, host),
        CondM::And(a, b) => undecided(*a, host) && undecided(*b, host),
        CondM::Or(a, b) => undecided(*a, host) && undecided(*b, host),
        _ => true,
    }
}

/// What the fold leaves undecided is undecided all through, and folds to itself.
proof fn lemma_fold_unknown(c: CondM, sh: Seq<char>, host: HostOs)
    ensures
        fold_cond(c, sh, host) matches Fold::Unknown(k) ==> undecided(k, host) && fold_cond(
            k,
            sh,
            host,
        ) == Fold::Unknown(k),
    decreases c,
{
    match c {
        CondM::Not(a) => lemma_fold_unknown(*a, sh, host),
        CondM::And(a, b) => {
            lemma_fold_unknown(*a, sh, host);
            lemma_fold_unknown(*b, sh, host);
        },
        CondM::Or(a, b) => {
            lemma_fold_unknown(*a, sh, host);
            lemma_fold_unknown(*b, sh, host);
        },
        _ => {},
    }
}

/// Every condition in `ns` at any depth (`if` heads and `elif` conditions alike)
/// is undecided by the target shell and the build host.
pub open spec fn conds_undecided(ns: Seq<NodeM>, host: HostOs) -> bool
    decreases seq_size(ns), 0nat,
{
    if ns.len() == 0 {
        true
    } else {
        conds_undecided(ns.drop_last(), host) && node_conds_undecided(ns.last(), host)
    }
}

pub open spec fn node_conds_undecided(n: NodeM, host: HostOs) -> bool
    decreases node_size(n), 2nat,
{
    match n {
        NodeM::If(i) => undecided(i.cond, host) && conds_undecided(i.body, host)
            && branch_conds_undecided(i.elifs, host) && conds_undecided(i.else_, host),
        _ => true,
    }
}

pub open spec fn branch_conds_undecided(es: Seq<(CondM, Seq<NodeM>)>, host: HostOs) -> bool
    decreases elifs_size(es), 1nat,
{
    if es.len() == 0 {
        true
    } else {
        undecided(es[0].0, host) && conds_undecided(es[0].1, host) && branch_conds_undecided(
            es.drop_first(),
            host,
        )
    }
}

proof fn lemma_conds_concat(a: Seq<NodeM>, b: Seq<NodeM>, host: HostOs)
    ensures
        conds_undecided(a + b, host) == (conds_undecided(a, host) && conds_undecided(b, host)),
    decreases b.len(),
{
    if b.len() == 0 {
        assert(a + b =~= a);
    } else {
        lemma_conds_concat(a, b.drop_last(), host);
        assert((a + b).drop_last() =~= a + b.drop_last());
        assert((a + b).last() == b.last());
    }
}

proof fn lemma_conds_single(n: NodeM, host: HostOs)
    ensures
        conds_undecided(seq![n], host) == node_conds_undecided(n, host),
{
    assert(seq![n].drop_last() =~= Seq::<NodeM>::empty());
    assert(seq![n].last() == n);
    assert(conds_undecided(Seq::<NodeM>::empty(), host));
}

proof fn lemma_conds_seq(ns: Seq<NodeM>, sh: Seq<char>, host: HostOs)
    ensures
        conds_undecided(pruned_seq(ns, sh, host), host),
    decreases seq_size(ns), 0nat,
{
    if ns.len() > 0 {
        lemma_conds_seq(ns.drop_last(), sh, host);
        lemma_conds_node(ns.last(), sh, host);
        lemma_conds_concat(pruned_seq(ns.drop_last(), sh, host), pruned_node(ns.last(), sh, host), host);
    }
}

proof fn lemma_conds_node(n: NodeM, sh: Seq<char>, host: HostOs)
    ensures
        conds_undecided(pruned_node(n, sh, host), host),
    decreases node_size(n), 4nat,
{
    match n {
        NodeM::If(i) => lemma_conds_if(i, sh, host),
        _ => lemma_conds_single(n, host),
    }
}

proof fn lemma_conds_if(i: IfM, sh: Seq<char>, host: HostOs)
    ensures
        conds_undecided(pruned_if(i, sh, host), host),
    decreases node_size(NodeM::If(i)) - 1, 3nat,
{
    lemma_fold_unknown(i.cond, sh, host);
    match fold_cond(i.cond, sh, host) {
        Fold::True => lemma_conds_seq(i.body, sh, host),
        Fold::False => lemma_conds_chain(i.elifs, i.else_, sh, host),
        Fold::Unknown(k) => {
            let t = pruned_tail(i.elifs, i.else_, sh, host);
            let new = IfM { cond: k, body: pruned_seq(i.body, sh, host), elifs: t.0, else_: t.1 };
            lemma_conds_single(NodeM::If(new), host);
            lemma_conds_seq(i.body, sh, host);
            lemma_conds_tail(i.elifs, i.else_, sh, host);
        },
    }
}

proof fn lemma_conds_chain(
    es: Seq<(CondM, Seq<NodeM>)>,
    el: Seq<NodeM>,
    sh: Seq<char>,
    host: HostOs,
)
    ensures
        conds_undecided(pruned_false_head(es, el, sh, host), host),
    decreases elifs_size(es) + seq_size(el), 2nat,
{
    if es.len() == 0 {
        lemma_conds_seq(el, sh, host);
    } else {
        lemma_fold_unknown(es[0].0, sh, host);
        match fold_cond(es[0].0, sh, host) {
            Fold::False => lemma_conds_chain(es.drop_first(), el, sh, host),
            Fold::True => lemma_conds_seq(es[0].1, sh, host),
            Fold::Unknown(k) => {
                let t = pruned_tail(es.drop_first(), el, sh, host);
                let new = IfM { cond: k, body: pruned_seq(es[0].1, sh, host), elifs: t.0, else_: t.1 };
                lemma_conds_single(NodeM::If(new), host);
                lemma_conds_seq(es[0].1, sh, host);
                lemma_conds_tail(es.drop_first(), el, sh, host);
            },
        }
    }
}

proof fn lemma_conds_tail(
    es: Seq<(CondM, Seq<NodeM>)>,
    el: Seq<NodeM>,
    sh: Seq<char>,
    host: HostOs,
)
    ensures
        branch_conds_undecided(pruned_tail(es, el, sh, host).0, host),
        conds_undecided(pruned_tail(es, el, sh, host).1, host),
    decreases elifs_size(es) + seq_size(el), 1nat,
{
    if es.len() == 0 {
        lemma_conds_seq(el, sh, host);
    } else {
        lemma_fold_unknown(es[0].0, sh, host);
        match fold_cond(es[0].0, sh, host) {
            Fold::False => lemma_conds_tail(es.drop_first(), el, sh, host),
            Fold::True => lemma_conds_seq(es[0].1, sh, host),
            Fold::Unknown(k) => {
                let t = pruned_tail(es.drop_first(), el, sh, host);
                let p = seq![(k, pruned_seq(es[0].1, sh, host))] + t.0;
                assert(p[0] == (k, pruned_seq(es[0].1, sh, host)));
                assert(p.drop_first() =~= t.0);
                lemma_conds_seq(es[0].1, sh, host);
                lemma_conds_tail(es.drop_first(), el, sh, host);
            },
        }
    }
}

/// After pruning, every condition left at any depth, in an `if` head or an
/// `elif`, is one that neither the target shell nor the build host decides:
/// every branch the target rules out is gone, every `if` or `elif` it decides
/// true has been replaced by its body, and no unreachable branch is left.
pub proof fn prune_leaves_undecided_conds(ns: Seq<NodeM>, sh: Seq<char>, host: HostOs)
    ensures
        conds_undecided(pruned_seq(ns, sh, host), host),
{
    lemma_conds_seq(ns, sh, host);
}

/// A condition that nothing decides folds to itself.
proof fn lemma_fold_undecided(c: CondM, sh: Seq<char>, host: HostOs)
    requires
        undecided(c, host),
    ensures
        fold_cond(c, sh, host) == Fold::Unknown(c),
    decreases c,
{
    match c {
        CondM::Not(a) => lemma_fold_undecided(*a, sh, host),
        CondM::And(a, b) => {
            lemma_fold_undecided(*a, sh, host);
            lemma_fold_undecided(*b, sh, host);
        },
        CondM::Or(a, b) => {
            lemma_fold_undecided(*a, sh, host);
            lemma_fold_undecided(*b, sh, host);
        },
        _ => {},
    }
}

proof fn lemma_fixed_seq(ns: Seq<NodeM>, sh: Seq<char>, host: HostOs)
    requires
        conds_undecided(ns, host),
    ensures
        pruned_seq(ns, sh, host) == ns,
    decreases seq_size(ns), 0nat,
{
    if ns.len() > 0 {
        lemma_fixed_seq(ns.drop_last(), sh, host);
        lemma_fixed_node(ns.last(), sh, host);
        assert(ns.drop_last().push(ns.last()) =~= ns);
        assert(pruned_seq(ns, sh, host) =~= ns.drop_last() + seq![ns.last()]);
    } else {
        assert(pruned_seq(ns, sh, host) =~= ns);
    }
}

proof fn lemma_fixed_node(n: NodeM, sh: Seq<char>, host: HostOs)
    requires
        node_conds_undecided(n, host),
    ensures
        pruned_node(n, sh, host) == seq![n],
    decreases node_size(n), 2nat,
{
    match n {
        NodeM::If(i) => {
            lemma_fold_undecided(i.cond, sh, host);
            lemma_fixed_seq(i.body, sh, host);
            lemma_fixed_tail(i.elifs, i.else_, sh, host);
        },
        _ => {},
    }
}

proof fn lemma_fixed_tail(es: Seq<(CondM, Seq<NodeM>)>, el: Seq<NodeM>, sh: Seq<char>, host: HostOs)
    requires
        branch_conds_undecided(es, host),
        conds_undecided(el, host),
    ensures
        pruned_tail(es, el, sh, host) == (es, el),
    decreases elifs_size(es) + seq_size(el), 1nat,
{
    if es.len() > 0 {
        lemma_fold_undecided(es[0].0, sh, host);
        lemma_fixed_seq(es[0].1, sh, host);
        lemma_fixed_tail(es.drop_first(), el, sh, host);
        assert(seq![(es[0].0, es[0].1)] + es.drop_first() =~= es);
    } else {
        lemma_fixed_seq(el, sh, host);
        assert(pruned_tail(es, el, sh, host).0 =~= es);
    }
}

/// Runtime checks are never folded: a list in which every condition at any
/// depth is undecided by the target shell and the build host (`have`,
/// `exists`, `env`, `os` names the host cannot decide, and combinations of
/// them) comes out of pruning exactly as it went in.
pub proof fn prune_keeps_undecided(ns: Seq<NodeM>, sh: Seq<char>, host: HostOs)
    requires
        conds_undecided(ns, host),
    ensures
        pruned_seq(ns, sh, host) == ns,
{
    lemma_fixed_seq(ns, sh, host);
}

/// Pruning is idempotent: pruning an already pruned list changes nothing.
pub proof fn prune_idempotent(ns: Seq<NodeM>, sh: Seq<char>, host: HostOs)
    ensures
        pruned_seq(pruned_seq(ns, sh, host), sh, host) == pruned_seq(ns, sh, host),
{
    lemma_conds_seq(ns, sh, host);
    lemma_fixed_seq(pruned_seq(ns, sh, host), sh, host);
}

/// How single conditions fold: `shell n` is true exactly when `n` is the target
/// shell; `have`, `exists` and `env` are runtime checks and stay as written;
/// `os n` is decided as `os_fold` says and otherwise stays as written; `not`
/// turns true into false and false into true, and wraps what stays undecided.
pub proof fn fold_single_rules(c: CondM, v: Seq<char>, sh: Seq<char>, host: HostOs)
    ensures
        fold_cond(CondM::Shell(v), sh, host) == (if v == sh {
            Fold::True
        } else {
            Fold::False
        }),
        fold_cond(CondM::Have(v), sh, host) == Fold::Unknown(CondM::Have(v)),
        fold_cond(CondM::Exists(v), sh, host) == Fold::Unknown(CondM::Exists(v)),
        fold_cond(CondM::Env(v), sh, host) == Fold::Unknown(CondM::Env(v)),
        fold_cond(CondM::Os(v), sh, host) == match os_fold(v, host) {
            Some(true) => Fold::True,
            Some(false) => Fold::False,
            None => Fold::Unknown(CondM::Os(v)),
        },
        fold_cond(CondM::Not(Box::new(c)), sh, host) == match fold_cond(c, sh, host) {
            Fold::True => Fold::False,
            Fold::False => Fold::True,
            Fold::Unknown(x) => Fold::Unknown(CondM::Not(Box::new(x))),
        },
{
}

/// How `and` and `or` fold: a false operand makes `and` false and a true one
/// makes `or` true (either side); a true operand of `and`, or a false operand of
/// `or`, leaves the other operand's result; two undecided operands stay
/// combined.
pub proof fn fold_compound_rules(a: CondM, b: CondM, sh: Seq<char>, host: HostOs)
    ensures
        (fold_cond(a, sh, host) is False || fold_cond(b, sh, host) is False) ==> fold_cond(
            CondM::And(Box::new(a), Box::new(b)),
            sh,
            host,
        ) == Fold::False,
        fold_cond(a, sh, host) is True ==> fold_cond(CondM::And(Box::new(a), Box::new(b)), sh, host)
            == fold_cond(b, sh, host),
        fold_cond(b, sh, host) is True ==> fold_cond(CondM::And(Box::new(a), Box::new(b)), sh, host)
            == fold_cond(a, sh, host),
        (fold_cond(a, sh, host) is True || fold_cond(b, sh, host) is True) ==> fold_cond(
            CondM::Or(Box::new(a), Box::new(b)),
            sh,
            host,
        ) == Fold::True,
        fold_cond(a, sh, host) is False ==> fold_cond(CondM::Or(Box::new(a), Box::new(b)), sh, host)
            == fold_cond(b, sh, host),
        fold_cond(b, sh, host) is False ==> fold_cond(CondM::Or(Box::new(a), Box::new(b)), sh, host)
            == fold_cond(a, sh, host),
        fold_cond(a, sh, host) matches Fold::Unknown(x) ==> (fold_cond(b, sh, host) matches Fold::Unknown(y)
            ==> (fold_cond(CondM::And(Box::new(a), Box::new(b)), sh, host) == Fold::Unknown(
            CondM::And(Box::new(x), Box::new(y)),
        ) && fold_cond(CondM::Or(Box::new(a), Box::new(b)), sh, host) == Fold::Unknown(
            CondM::Or(Box::new(x), Box::new(y)),
        ))),
{
}

/// A statement that is not an `if` passes through pruning unchanged.
pub proof fn prune_keeps_plain_statement(n: NodeM, sh: Seq<char>, host: HostOs)
    requires
        !(n is If),
    ensures
        pruned_seq(seq![n], sh, host) == seq![n],
{
    assert(seq![n].drop_last() =~= Seq::<NodeM>::empty());
    assert(seq![n].last() == n);
    assert(pruned_seq(Seq::<NodeM>::empty(), sh, host) =~= Seq::<NodeM>::empty());
    assert(pruned_node(n, sh, host) == seq![n]);
    assert(pruned_seq(seq![n], sh, host) =~= seq![n]);
}

} // verus!
