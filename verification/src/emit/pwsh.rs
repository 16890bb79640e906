//! PowerShell back end.
use vstd::prelude::*;
use crate::ast::{
    Cond, CondM, IfNode, Node, NodeM, PathDir, cond_model, elifs_model, elifs_size, if_model,
    lemma_elifs_model, lemma_elifs_size, lemma_nodes_model, lemma_seq_size, node_model, node_size,
    nodes_model, seq_size,
};
use crate::emit::{
    Emitter, Style, block_lines, branch_lines, call_args, call_text, cond_text, else_open, elif_open,
    if_close, if_lines, if_open, indented, lemma_branch_lines_concat, node_lines,
    substitute_shell,
};
use crate::text::{same_text, strs_view};

verus! {

/// Emits PowerShell.
pub struct PwshEmitter;

/// Text of a condition in PowerShell.
pub open spec fn pwsh_cond(c: CondM) -> Seq<char>
    decreases c,
{
    match c {
        CondM::Have(cmd) => "Get-Command "@ + cmd + " -ErrorAction SilentlyContinue"@,
        CondM::Exists(path) => "Test-Path \""@ + path + "\""@,
        CondM::Env(var) => "(Test-Path env:"@ + var + ")"@,
        CondM::Os(name) => if name == "darwin"@ {
            "$IsMacOS"@
        } else if name == "linux"@ {
            "$IsLinux"@
        } else if name == "windows"@ {
            "$IsWindows"@
        } else {
            "$false # unknown os: "@ + name
        },
        CondM::Shell(name) => if name == "pwsh"@ {
            "$true"@
        } else {
            "$false"@
        },
        CondM::Not(a) => "(-not ("@ + pwsh_cond(*a) + "))"@,
        CondM::And(a, b) => "("@ + pwsh_cond(*a) + ") -and ("@ + pwsh_cond(*b) + ")"@,
        CondM::Or(a, b) => "("@ + pwsh_cond(*a) + ") -or ("@ + pwsh_cond(*b) + ")"@,
    }
}

/// The line for a `set`, `path`, `call` or `alias` statement.
pub open spec fn pwsh_leaf(n: NodeM) -> Seq<char> {
    match n {
        NodeM::SetEnv { key, val } => "$env:"@ + key + " = \""@ + val + "\""@,
        NodeM::Path { dir, direction } => "if ($env:PATH -notlike '*"@ + dir + "*') { "@ + match direction {
            PathDir::Prepend => "$env:PATH = \""@ + dir + ";$env:PATH\""@,
            PathDir::Append => "$env:PATH = \"$env:PATH;"@ + dir + "\""@,
        } + " }"@,
        NodeM::Call { cmd, args } => call_text(
            "Invoke-Expression (& "@,
            cmd,
            call_args(args, "powershell"@),
            ")"@,
        ),
        NodeM::Alias { name, body } => "Set-Alias -Scope Global -Name "@ + name + " -Value "@ + body,
        NodeM::If(_) => Seq::empty(),
    }
}

impl Emitter for PwshEmitter {
    open spec fn style(&self) -> Style {
        Style::Pwsh
    }

    fn name(&self) -> (r: &str) {
        proof {
            reveal_strlit("pwsh");
        }
        "pwsh"
    }

    fn emit_nodes(&self, nodes: &[Node], d: usize) -> (out: Vec<String>) {
        let ghost m = nodes_model(nodes@);
        proof {
            lemma_nodes_model(nodes@);
            lemma_seq_size(m);
        }
        let mut out: Vec<String> = Vec::new();
        let mut i: usize = 0;
        assert(m.take(0) =~= Seq::<NodeM>::empty());
        while i < nodes.len()
            invariant
                i <= nodes@.len(),
                m == nodes_model(nodes@),
                m.len() == nodes@.len(),
                forall|j: int| 0 <= j < nodes@.len() ==> #[trigger] m[j] == node_model(nodes@[j]),
                forall|j: int| 0 <= j < m.len() ==> node_size(#[trigger] m[j]) < seq_size(m),
                d + seq_size(m) <= usize::MAX,
                strs_view(out@) == block_lines(self.style(), m.take(i as int), d as nat),
            decreases nodes@.len() - i,
        {
            assert(m.take(i + 1).drop_last() =~= m.take(i as int));
            assert(m.take(i + 1).last() == m[i as int]);
            self.node(&nodes[i], d, &mut out);
            i = i + 1;
        }
        assert(m.take(i as int) =~= m);
        out
    }

    fn resolve_call_args(&self, args: &str) -> (r: String) {
        proof {
            reveal_strlit("powershell");
        }
        substitute_shell(args, "powershell")
    }
}

impl PwshEmitter {
    /// Push the lines of `n` at depth `d` onto `out`.
    fn node(&self, n: &Node, d: usize, out: &mut Vec<String>)
        requires
            d + node_size(node_model(*n)) <= usize::MAX,
        ensures
            strs_view(final(out)@) == strs_view(old(out)@) + node_lines(
                self.style(),
                node_model(*n),
                d as nat,
            ),
        decreases node_size(node_model(*n)), 1nat,
    {
        let ghost out0 = out@;
        match n {
            Node::SetEnv { key, val } => {
                let mut s = String::from_str("$env:");
                s.append(key.as_str());
                s.append(" = \"");
                s.append(val.as_str());
                s.append("\"");
                out.push(self.indent(s, d));
            },
            Node::Path { dir, direction } => {
                let add = match direction {
                    PathDir::Prepend => {
                        let mut a = String::from_str("$env:PATH = \"");
                        a.append(dir.as_str());
                        a.append(";$env:PATH\"");
                        a
                    },
                    PathDir::Append => {
                        let mut a = String::from_str("$env:PATH = \"$env:PATH;");
                        a.append(dir.as_str());
                        a.append("\"");
                        a
                    },
                };
                let mut s = String::from_str("if ($env:PATH -notlike '*");
                s.append(dir.as_str());
                s.append("*') { ");
                s.append(add.as_str());
                s.append(" }");
                out.push(self.indent(s, d));
            },
            Node::Call { cmd, args } => {
                let s = self.format_call(cmd.as_str(), args.as_str(), "Invoke-Expression (& ", ")");
                out.push(self.indent(s, d));
            },
            // `-Scope Global` keeps the alias after the dot-sourced script returns;
            // `-Name` and `-Value` avoid positional ambiguity with multi-word bodies.
            Node::Alias { name, body } => {
                let mut s = String::from_str("Set-Alias -Scope Global -Name ");
                s.append(name.as_str());
                s.append(" -Value ");
                s.append(body.as_str());
                out.push(self.indent(s, d));
            },
            Node::If(node) => {
                self.emit_if(node, d, out);
                return;
            },
        }
        assert(out@.drop_last() == out0);
        assert(strs_view(out@) =~= strs_view(out0) + node_lines(
            self.style(),
            node_model(*n),
            d as nat,
        ));
    }

    /// Build the condition string.
    pub fn cond(&self, c: &Cond) -> (r: String)
        ensures
            r@ == pwsh_cond(cond_model(*c)),
        decreases c,
    {
        match c {
            Cond::Have(cmd) => {
                let mut s = String::from_str("Get-Command ");
                s.append(cmd.as_str());
                s.append(" -ErrorAction SilentlyContinue");
                s
            },
            Cond::Exists(path) => {
                let mut s = String::from_str("Test-Path \"");
                s.append(path.as_str());
                s.append("\"");
                s
            },
            Cond::Env(var) => {
                let mut s = String::from_str("(Test-Path env:");
                s.append(var.as_str());
                s.append(")");
                s
            },
            Cond::Os(name) => {
                if same_text(name.as_str(), "darwin") {
                    String::from_str("$IsMacOS")
                } else if same_text(name.as_str(), "linux") {
                    String::from_str("$IsLinux")
                } else if same_text(name.as_str(), "windows") {
                    String::from_str("$IsWindows")
                } else {
                    let mut s = String::from_str("$false # unknown os: ");
                    s.append(name.as_str());
                    s
                }
            },
            // The DSL names this shell "pwsh"; `{shell}` in calls becomes "powershell".
            Cond::Shell(name) => {
                if same_text(name.as_str(), "pwsh") {
                    String::from_str("$true")
                } else {
                    String::from_str("$false")
                }
            },
            Cond::Not(inner) => {
                let mut s = String::from_str("(-not (");
                let i = self.cond(inner);
                s.append(i.as_str());
                s.append("))");
                s
            },
            Cond::And(lhs, rhs) => {
                let l = self.cond(lhs);
                let r = self.cond(rhs);
                let mut s = String::from_str("(");
                s.append(l.as_str());
                s.append(") -and (");
                s.append(r.as_str());
                s.append(")");
                s
            },
            Cond::Or(lhs, rhs) => {
                let l = self.cond(lhs);
                let r = self.cond(rhs);
                let mut s = String::from_str("(");
                s.append(l.as_str());
                s.append(") -or (");
                s.append(r.as_str());
                s.append(")");
                s
            },
        }
    }

    /// Push the lines of an `if` block at depth `d` onto `out`.
    fn emit_if(&self, n: &IfNode, d: usize, out: &mut Vec<String>)
        requires
            d + node_size(NodeM::If(if_model(*n))) <= usize::MAX,
        ensures
            strs_view(final(out)@) == strs_view(old(out)@) + if_lines(
                self.style(),
                if_model(*n),
                d as nat,
            ),
        decreases node_size(NodeM::If(if_model(*n))) - 1, 0nat,
    {
        let ghost st = self.style();
        let ghost i = if_model(*n);
        let ghost out0 = out@;
        proof {
            lemma_nodes_model(n.body@);
            lemma_nodes_model(n.else_@);
            lemma_elifs_model(n.elifs@);
            lemma_seq_size(i.body);
            lemma_seq_size(i.else_);
            lemma_elifs_size(i.elifs);
        }
        let mut head = String::from_str("if (");
        let c = self.cond(&n.cond);
        head.append(c.as_str());
        head.append(") {");
        out.push(self.indent(head, d));
        let ghost out1 = out@;
        assert(strs_view(out1) =~= strs_view(out0).push(indented(if_open(st, cond_text(st, i.cond)), d as nat)));
        // body
        let mut k: usize = 0;
        assert(i.body.take(0) =~= Seq::<NodeM>::empty());
        while k < n.body.len()
            invariant
                k <= n.body@.len(),
                i == if_model(*n),
                st == self.style(),
                i.body == nodes_model(n.body@),
                i.body.len() == n.body@.len(),
                forall|j: int| 0 <= j < n.body@.len() ==> #[trigger] i.body[j] == node_model(n.body@[j]),
                forall|j: int| 0 <= j < i.body.len() ==> node_size(#[trigger] i.body[j]) < seq_size(i.body),
                d + node_size(NodeM::If(i)) <= usize::MAX,
                strs_view(out@) == strs_view(out1) + block_lines(st, i.body.take(k as int), d as nat + 1),
            decreases n.body@.len() - k,
        {
            assert(i.body.take(k + 1).drop_last() =~= i.body.take(k as int));
            assert(i.body.take(k + 1).last() == i.body[k as int]);
            self.node(&n.body[k], d + 1, out);
            k = k + 1;
        }
        assert(i.body.take(k as int) =~= i.body);
        let ghost out2 = out@;
        // elif branches
        let mut e: usize = 0;
        assert(i.elifs.take(0) =~= Seq::<(CondM, Seq<NodeM>)>::empty());
        while e < n.elifs.len()
            invariant
                e <= n.elifs@.len(),
                i == if_model(*n),
                st == self.style(),
                i.elifs == elifs_model(n.elifs@),
                i.elifs.len() == n.elifs@.len(),
                forall|j: int|
                    0 <= j < n.elifs@.len() ==> #[trigger] i.elifs[j] == (
                        cond_model(n.elifs@[j].0),
                        nodes_model(n.elifs@[j].1@),
                    ),
                forall|j: int| 0 <= j < i.elifs.len() ==> seq_size(#[trigger] i.elifs[j].1) < elifs_size(i.elifs),
                d + node_size(NodeM::If(i)) <= usize::MAX,
                strs_view(out@) == strs_view(out2) + branch_lines(st, i.elifs.take(e as int), d as nat),
            decreases n.elifs@.len() - e,
        {
            let ghost outb = out@;
            let (ec, eb) = &n.elifs[e];
            let ghost bm = i.elifs[e as int].1;
            proof {
                lemma_nodes_model(eb@);
                lemma_seq_size(bm);
            }
            let mut line = String::from_str("} elseif (");
            let c = self.cond(ec);
            line.append(c.as_str());
            line.append(") {");
            out.push(self.indent(line, d));
            let ghost outc = out@;
            assert(strs_view(outc) =~= strs_view(outb).push(
                indented(elif_open(st, cond_text(st, i.elifs[e as int].0)), d as nat),
            ));
            let mut k: usize = 0;
            assert(bm.take(0) =~= Seq::<NodeM>::empty());
            while k < eb.len()
                invariant
                    k <= eb@.len(),
                    st == self.style(),
                    bm == nodes_model(eb@),
                    bm.len() == eb@.len(),
                    forall|j: int| 0 <= j < eb@.len() ==> #[trigger] bm[j] == node_model(eb@[j]),
                    forall|j: int| 0 <= j < bm.len() ==> node_size(#[trigger] bm[j]) < seq_size(bm),
                    seq_size(bm) < elifs_size(i.elifs),
                    d + node_size(NodeM::If(i)) <= usize::MAX,
                    i == if_model(*n),
                    strs_view(out@) == strs_view(outc) + block_lines(st, bm.take(k as int), d as nat + 1),
                decreases eb@.len() - k,
            {
                assert(bm.take(k + 1).drop_last() =~= bm.take(k as int));
                assert(bm.take(k + 1).last() == bm[k as int]);
                self.node(&eb[k], d + 1, out);
                k = k + 1;
            }
            assert(bm.take(k as int) =~= bm);
            proof {
                let one = seq![i.elifs[e as int]];
                assert(one.drop_first() =~= Seq::<(CondM, Seq<NodeM>)>::empty());
                assert(branch_lines(st, Seq::<(CondM, Seq<NodeM>)>::empty(), d as nat) =~= Seq::<Seq<char>>::empty());
                assert(branch_lines(st, one, d as nat) =~= seq![indented(elif_open(st, cond_text(st, i.elifs[e as int].0)), d as nat)] + block_lines(st, bm, d as nat + 1));
                lemma_branch_lines_concat(st, i.elifs.take(e as int), one, d as nat);
                assert(i.elifs.take(e as int) + one =~= i.elifs.take(e + 1));
                assert(strs_view(out@) =~= strs_view(outb) + branch_lines(st, one, d as nat));
                assert(strs_view(out@) =~= strs_view(out2) + branch_lines(st, i.elifs.take(e + 1), d as nat));
            }
            e = e + 1;
        }
        assert(i.elifs.take(e as int) =~= i.elifs);
        let ghost out3 = out@;
        // else branch
        if !n.else_.is_empty() {
            out.push(self.indent(String::from_str("} else {"), d));
            let ghost out4 = out@;
            assert(strs_view(out4) =~= strs_view(out3).push(indented(else_open(st), d as nat)));
            let mut k: usize = 0;
            assert(i.else_.take(0) =~= Seq::<NodeM>::empty());
            while k < n.else_.len()
                invariant
                    k <= n.else_@.len(),
                    i == if_model(*n),
                    st == self.style(),
                    i.else_ == nodes_model(n.else_@),
                    i.else_.len() == n.else_@.len(),
                    forall|j: int| 0 <= j < n.else_@.len() ==> #[trigger] i.else_[j] == node_model(n.else_@[j]),
                    forall|j: int| 0 <= j < i.else_.len() ==> node_size(#[trigger] i.else_[j]) < seq_size(i.else_),
                    d + node_size(NodeM::If(i)) <= usize::MAX,
                    strs_view(out@) == strs_view(out4) + block_lines(st, i.else_.take(k as int), d as nat + 1),
                decreases n.else_@.len() - k,
            {
                assert(i.else_.take(k + 1).drop_last() =~= i.else_.take(k as int));
                assert(i.else_.take(k + 1).last() == i.else_[k as int]);
                self.node(&n.else_[k], d + 1, out);
                k = k + 1;
            }
            assert(i.else_.take(k as int) =~= i.else_);
        }
        let ghost out5 = out@;
        let ghost tail = if i.else_.len() > 0 {
            seq![indented(else_open(st), d as nat)] + block_lines(st, i.else_, d as nat + 1)
        } else {
            Seq::empty()
        };
        assert(strs_view(out5) =~= strs_view(out3) + tail);
        out.push(self.indent(String::from_str("}"), d));
        assert(strs_view(out@) =~= strs_view(out5).push(indented(if_close(st), d as nat)));
        assert(strs_view(out@) =~= strs_view(out0) + if_lines(st, i, d as nat));
    }
}

} // verus!
