//! Syntax tree of a `.shed` declaration file and its mathematical model.
use vstd::prelude::*;
use crate::text::{decimal, push_decimal};

verus! {

/// A parse failure, with the 1-based source line it was found on.
#[derive(Debug)]
pub struct ParseError {
    pub line: usize,
    pub msg: String,
}

impl ParseError {
    /// Build an error for source line `line` with message `msg`.
    pub fn at(line: usize, msg: String) -> (e: ParseError)
        ensures
            e.line == line,
            e.msg@ == msg@,
    {
        ParseError { line, msg }
    }

    /// The error as shown to a user: `line N: msg`, or the message alone when
    /// the line is 0 (end of input, or no line to point at).
    pub fn to_string(&self) -> (s: String)
        ensures
            s@ == error_text(self.line as nat, self.msg@),
    {
        if self.line == 0 {
            return self.msg.clone();
        }
        let mut s = String::from_str("line ");
        push_decimal(&mut s, self.line);
        s.append(": ");
        s.append(self.msg.as_str());
        s
    }
}

/// How an error on source line `line` with message `msg` reads.
pub open spec fn error_text(line: nat, msg: Seq<char>) -> Seq<char> {
    if line == 0 {
        msg
    } else {
        "line "@ + decimal(line) + ": "@ + msg
    }
}

/// Whether a `path` directive prepends (`path+`) or appends (`path-`) to `PATH`.
#[derive(Debug, Clone, Copy, PartialEq, Eq, Structural)]
pub enum PathDir {
    Prepend,
    Append,
}

/// A single statement of a `.shed` file.
#[derive(Debug, PartialEq)]
pub enum Node {
    SetEnv { key: String, val: String },
    Path { dir: String, direction: PathDir },
    Call { cmd: String, args: String },
    Alias { name: String, body: String },
    If(IfNode),
}

/// An `if` block with its `elif` branches and optional `else` body.
#[derive(Debug, PartialEq)]
pub struct IfNode {
    pub cond: Cond,
    pub body: Vec<Node>,
    pub elifs: Vec<(Cond, Vec<Node>)>,
    pub else_: Vec<Node>,
}

/// A runtime or compile-time condition.
#[derive(Debug, PartialEq)]
pub enum Cond {
    Have(String),
    Exists(String),
    Env(String),
    Os(String),
    Shell(String),
    Not(Box<Cond>),
    And(Box<Cond>, Box<Cond>),
    Or(Box<Cond>, Box<Cond>),
}

/// Mathematical model of a condition: the same tree with text as `Seq<char>`.
pub enum CondM {
    Have(Seq<char>),
    Exists(Seq<char>),
    Env(Seq<char>),
    Os(Seq<char>),
    Shell(Seq<char>),
    Not(Box<CondM>),
    And(Box<CondM>, Box<CondM>),
    Or(Box<CondM>, Box<CondM>),
}

/// Mathematical model of a statement.
pub enum NodeM {
    SetEnv { key: Seq<char>, val: Seq<char> },
    Path { dir: Seq<char>, direction: PathDir },
    Call { cmd: Seq<char>, args: Seq<char> },
    Alias { name: Seq<char>, body: Seq<char> },
    If(IfM),
}

/// Mathematical model of an `if` block.
pub struct IfM {
    pub cond: CondM,
    pub body: Seq<NodeM>,
    pub elifs: Seq<(CondM, Seq<NodeM>)>,
    pub else_: Seq<NodeM>,
}

pub open spec fn cond_model(c: Cond) -> CondM
    decreases c,
{
    match c {
        Cond::Have(s) => CondM::Have(s@),
        Cond::Exists(s) => CondM::Exists(s@),
        Cond::Env(s) => CondM::Env(s@),
        Cond::Os(s) => CondM::Os(s@),
        Cond::Shell(s) => CondM::Shell(s@),
        Cond::Not(a) => CondM::Not(Box::new(cond_model(*a))),
        Cond::And(a, b) => CondM::And(Box::new(cond_model(*a)), Box::new(cond_model(*b))),
        Cond::Or(a, b) => CondM::Or(Box::new(cond_model(*a)), Box::new(cond_model(*b))),
    }
}

pub open spec fn node_model(n: Node) -> NodeM
    decreases n, 0nat,
{
    match n {
        Node::SetEnv { key, val } => NodeM::SetEnv { key: key@, val: val@ },
        Node::Path { dir, direction } => NodeM::Path { dir: dir@, direction },
        Node::Call { cmd, args } => NodeM::Call { cmd: cmd@, args: args@ },
        Node::Alias { name, body } => NodeM::Alias { name: name@, body: body@ },
        Node::If(i) => NodeM::If(if_model(i)),
    }
}

pub open spec fn if_model(i: IfNode) -> IfM
    decreases i, 0nat,
{
    IfM {
        cond: cond_model(i.cond),
        body: nodes_model(i.body@),
        elifs: elifs_model(i.elifs@),
        else_: nodes_model(i.else_@),
    }
}

pub open spec fn nodes_model(ns: Seq<Node>) -> Seq<NodeM>
    decreases ns, 0nat,
{
    if ns.len() == 0 {
        Seq::empty()
    } else {
        nodes_model(ns.drop_last()).push(node_model(ns.last()))
    }
}

pub open spec fn elifs_model(es: Seq<(Cond, Vec<Node>)>) -> Seq<(CondM, Seq<NodeM>)>
    decreases es, 0nat,
{
    if es.len() == 0 {
        Seq::empty()
    } else {
        elifs_model(es.drop_last()).push((cond_model(es.last().0), nodes_model(es.last().1@)))
    }
}

impl View for Cond {
    type V = CondM;

    open spec fn view(&self) -> CondM {
        cond_model(*self)
    }
}

impl View for Node {
    type V = NodeM;

    open spec fn view(&self) -> NodeM {
        node_model(*self)
    }
}

/// `nodes_model` maps each statement to its model, position by position.
pub proof fn lemma_nodes_model(ns: Seq<Node>)
    ensures
        nodes_model(ns).len() == ns.len(),
        forall|i: int| 0 <= i < ns.len() ==> #[trigger] nodes_model(ns)[i] == node_model(ns[i]),
    decreases ns.len(),
{
    if ns.len() > 0 {
        lemma_nodes_model(ns.drop_last());
    }
}

/// `elifs_model` maps each branch to its model, position by position.
pub proof fn lemma_elifs_model(es: Seq<(Cond, Vec<Node>)>)
    ensures
        elifs_model(es).len() == es.len(),
        forall|i: int|
            0 <= i < es.len() ==> #[trigger] elifs_model(es)[i] == (
                cond_model(es[i].0),
                nodes_model(es[i].1@),
            ),
    decreases es.len(),
{
    if es.len() > 0 {
        lemma_elifs_model(es.drop_last());
    }
}

/// The model of a concatenation is the concatenation of the models.
pub proof fn lemma_nodes_model_concat(a: Seq<Node>, b: Seq<Node>)
    ensures
        nodes_model(a + b) == nodes_model(a) + nodes_model(b),
{
    lemma_nodes_model(a);
    lemma_nodes_model(b);
    lemma_nodes_model(a + b);
    assert(nodes_model(a + b) =~= nodes_model(a) + nodes_model(b));
}

/// The model of a slice of branches is the slice of the model.
pub proof fn lemma_elifs_model_sub(es: Seq<(Cond, Vec<Node>)>, i: int, j: int)
    requires
        0 <= i <= j <= es.len(),
    ensures
        elifs_model(es.subrange(i, j)) == elifs_model(es).subrange(i, j),
{
    lemma_elifs_model(es);
    lemma_elifs_model(es.subrange(i, j));
    assert(elifs_model(es.subrange(i, j)) =~= elifs_model(es).subrange(i, j));
}

/// Size of a statement: a measure that strictly shrinks from a block to its parts.
pub open spec fn node_size(n: NodeM) -> nat
    decreases n, 0nat,
{
    match n {
        NodeM::If(i) => 2 + seq_size(i.body) + elifs_size(i.elifs) + seq_size(i.else_),
        _ => 1,
    }
}

/// Size of a statement list.
pub open spec fn seq_size(ns: Seq<NodeM>) -> nat
    decreases ns, 0nat,
{
    if ns.len() == 0 {
        0
    } else {
        seq_size(ns.drop_last()) + node_size(ns.last()) + 1
    }
}

/// Size of a list of `elif` branches.
pub open spec fn elifs_size(es: Seq<(CondM, Seq<NodeM>)>) -> nat
    decreases es, 0nat,
{
    if es.len() == 0 {
        0
    } else {
        seq_size(es[0].1) + 1 + elifs_size(es.drop_first())
    }
}

/// Every statement of a list is smaller than the list.
pub proof fn lemma_seq_size(ns: Seq<NodeM>)
    ensures
        forall|i: int| 0 <= i < ns.len() ==> node_size(#[trigger] ns[i]) < seq_size(ns),
        forall|i: int, j: int|
            0 <= i <= j <= ns.len() ==> seq_size(#[trigger] ns.subrange(i, j)) <= seq_size(ns),
    decreases ns.len(),
{
    if ns.len() > 0 {
        lemma_seq_size(ns.drop_last());
        assert forall|i: int| 0 <= i < ns.len() implies node_size(#[trigger] ns[i]) < seq_size(
            ns,
        ) by {
            if i < ns.len() - 1 {
                assert(ns[i] == ns.drop_last()[i]);
            }
        }
        assert forall|i: int, j: int| 0 <= i <= j <= ns.len() implies seq_size(
            #[trigger] ns.subrange(i, j),
        ) <= seq_size(ns) by {
            lemma_seq_size_sub(ns, i, j);
        }
    }
}

proof fn lemma_seq_size_sub(ns: Seq<NodeM>, i: int, j: int)
    requires
        0 <= i <= j <= ns.len(),
    ensures
        seq_size(ns.subrange(i, j)) <= seq_size(ns),
    decreases ns.len(),
{
    if j == ns.len() {
        if i < j {
            let s = ns.subrange(i, j);
            assert(s.drop_last() =~= ns.drop_last().subrange(i, j - 1));
            lemma_seq_size_sub(ns.drop_last(), i, j - 1);
        } else {
            assert(ns.subrange(i, j).len() == 0);
        }
    } else {
        assert(ns.drop_last().subrange(i, j) =~= ns.subrange(i, j));
        lemma_seq_size_sub(ns.drop_last(), i, j);
    }
}

/// Every branch body is smaller than the list of branches, and so is every tail.
pub proof fn lemma_elifs_size(es: Seq<(CondM, Seq<NodeM>)>)
    ensures
        forall|i: int| 0 <= i < es.len() ==> seq_size(#[trigger] es[i].1) < elifs_size(es),
        forall|k: int| 0 <= k <= es.len() ==> elifs_size(#[trigger] es.skip(k)) <= elifs_size(es),
    decreases es.len(),
{
    if es.len() > 0 {
        let t = es.drop_first();
        lemma_elifs_size(t);
        assert forall|i: int| 0 <= i < es.len() implies seq_size(#[trigger] es[i].1) < elifs_size(
            es,
        ) by {
            if i > 0 {
                assert(es[i] == t[i - 1]);
            }
        }
        assert forall|k: int| 0 <= k <= es.len() implies elifs_size(#[trigger] es.skip(k))
            <= elifs_size(es) by {
            if k == 0 {
                assert(es.skip(0) =~= es);
            } else {
                assert(es.skip(k) =~= t.skip(k - 1));
            }
        }
    }
}

// ── copies ───────────────────────────────────────────────────────────────────

impl Clone for Cond {
    /// A copy with the same model.
    fn clone(&self) -> (r: Self)
        ensures
            cond_model(r) == cond_model(*self),
        decreases self,
    {
        match self {
            Cond::Have(s) => Cond::Have(s.clone()),
            Cond::Exists(s) => Cond::Exists(s.clone()),
            Cond::Env(s) => Cond::Env(s.clone()),
            Cond::Os(s) => Cond::Os(s.clone()),
            Cond::Shell(s) => Cond::Shell(s.clone()),
            Cond::Not(a) => Cond::Not(Box::new((**a).clone())),
            Cond::And(a, b) => Cond::And(Box::new((**a).clone()), Box::new((**b).clone())),
            Cond::Or(a, b) => Cond::Or(Box::new((**a).clone()), Box::new((**b).clone())),
        }
    }
}

impl Clone for Node {
    /// A copy with the same model.
    fn clone(&self) -> (r: Self)
        ensures
            node_model(r) == node_model(*self),
        decreases node_size(node_model(*self)), 2nat,
    {
        match self {
            Node::SetEnv { key, val } => Node::SetEnv { key: key.clone(), val: val.clone() },
            Node::Path { dir, direction } => Node::Path { dir: dir.clone(), direction: *direction },
            Node::Call { cmd, args } => Node::Call { cmd: cmd.clone(), args: args.clone() },
            Node::Alias { name, body } => Node::Alias { name: name.clone(), body: body.clone() },
            Node::If(i) => Node::If(i.clone()),
        }
    }
}

impl Clone for IfNode {
    /// A copy with the same model.
    fn clone(&self) -> (r: Self)
        ensures
            if_model(r) == if_model(*self),
        decreases node_size(NodeM::If(if_model(*self))), 1nat,
    {
        proof {
            lemma_elifs_size(elifs_model(self.elifs@));
        }
        IfNode {
            cond: self.cond.clone(),
            body: clone_nodes(self.body.as_slice()),
            elifs: clone_elifs(self.elifs.as_slice()),
            else_: clone_nodes(self.else_.as_slice()),
        }
    }
}

/// Copies of `ns`, with the same model.
fn clone_nodes(ns: &[Node]) -> (r: Vec<Node>)
    ensures
        nodes_model(r@) == nodes_model(ns@),
    decreases seq_size(nodes_model(ns@)), 0nat,
{
    let ghost m = nodes_model(ns@);
    proof {
        lemma_nodes_model(ns@);
        lemma_seq_size(m);
    }
    let mut r: Vec<Node> = Vec::new();
    let mut i: usize = 0;
    while i < ns.len()
        invariant
            i <= ns@.len(),
            m == nodes_model(ns@),
            m.len() == ns@.len(),
            forall|j: int| 0 <= j < ns@.len() ==> #[trigger] m[j] == node_model(ns@[j]),
            forall|j: int| 0 <= j < m.len() ==> node_size(#[trigger] m[j]) < seq_size(m),
            nodes_model(r@) == m.take(i as int),
        decreases ns@.len() - i,
    {
        let ghost r0 = r@;
        assert(node_size(m[i as int]) < seq_size(m));
        let c = ns[i].clone();
        r.push(c);
        proof {
            assert(r@.drop_last() =~= r0);
            assert(m.take(i + 1) =~= m.take(i as int).push(m[i as int]));
        }
        i = i + 1;
    }
    assert(m.take(i as int) =~= m);
    r
}

/// Copies of `elif` branches `es`, with the same model.
fn clone_elifs(es: &[(Cond, Vec<Node>)]) -> (r: Vec<(Cond, Vec<Node>)>)
    ensures
        elifs_model(r@) == elifs_model(es@),
    decreases elifs_size(elifs_model(es@)), 0nat,
{
    let ghost m = elifs_model(es@);
    proof {
        lemma_elifs_model(es@);
        lemma_elifs_size(m);
    }
    let mut r: Vec<(Cond, Vec<Node>)> = Vec::new();
    let mut i: usize = 0;
    while i < es.len()
        invariant
            i <= es@.len(),
            m == elifs_model(es@),
            m.len() == es@.len(),
            forall|j: int|
                0 <= j < es@.len() ==> #[trigger] m[j] == (cond_model(es@[j].0), nodes_model(es@[j].1@)),
            forall|j: int| 0 <= j < m.len() ==> seq_size(#[trigger] m[j].1) < elifs_size(m),
            elifs_model(r@) == m.take(i as int),
        decreases es@.len() - i,
    {
        let ghost r0 = r@;
        let c = es[i].0.clone();
        assert(seq_size(m[i as int].1) < elifs_size(m));
        let b = clone_nodes(es[i].1.as_slice());
        r.push((c, b));
        proof {
            assert(r@.drop_last() =~= r0);
            assert(m.take(i + 1) =~= m.take(i as int).push(m[i as int]));
        }
        i = i + 1;
    }
    assert(m.take(i as int) =~= m);
    r
}

} // verus!
