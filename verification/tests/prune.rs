use shed::ast::{Cond, IfNode, Node};
use shed::prune::{prune_nodes, HostOs};

fn set(key: &str) -> Node {
    Node::SetEnv {
        key: key.into(),
        val: "1".into(),
    }
}

fn bare_if(cond: Cond, body: Vec<Node>) -> IfNode {
    IfNode {
        cond,
        body,
        elifs: vec![],
        else_: vec![],
    }
}

// -- multi-branch if/elif/else chain --------------------------------------

/// Dead head, multiple dead elifs, first live elif inlined; rest dropped.
#[test]
fn multi_elif_chain_first_live_inlined() {
    // if shell fish   -> dead (bash target)
    //   elif shell zsh  -> dead
    //   elif shell bash -> alive -> inline body
    //   elif shell pwsh -> never reached
    //   else            -> never reached
    let nodes = vec![Node::If(IfNode {
        cond: Cond::Shell("fish".into()),
        body: vec![set("FISH")],
        elifs: vec![
            (Cond::Shell("zsh".into()), vec![set("ZSH")]),
            (Cond::Shell("bash".into()), vec![set("BASH")]),
            (Cond::Shell("pwsh".into()), vec![set("PWSH")]),
        ],
        else_: vec![set("OTHER")],
    })];
    let out = prune_nodes(nodes, "bash", HostOs::Linux);
    assert_eq!(out.len(), 1, "expected exactly one inlined node: {:?}", out);
    assert!(
        matches!(&out[0], Node::SetEnv { key, .. } if key == "BASH"),
        "expected Set(BASH), got {:?}",
        out[0]
    );
}

/// All branches dead, no else -> empty; else present -> else inlined.
#[test]
fn all_branches_dead_empty_or_else() {
    let no_else = vec![Node::If(IfNode {
        cond: Cond::Shell("fish".into()),
        body: vec![set("FISH")],
        elifs: vec![(Cond::Shell("zsh".into()), vec![set("ZSH")])],
        else_: vec![],
    })];
    assert!(prune_nodes(no_else, "bash", HostOs::Linux).is_empty(), "expected empty");

    let with_else = vec![Node::If(IfNode {
        cond: Cond::Shell("fish".into()),
        body: vec![set("FISH")],
        elifs: vec![(Cond::Shell("zsh".into()), vec![set("ZSH")])],
        else_: vec![set("ELSE")],
    })];
    let out = prune_nodes(with_else, "bash", HostOs::Linux);
    assert_eq!(out.len(), 1);
    assert!(
        matches!(&out[0], Node::SetEnv { key, .. } if key == "ELSE"),
        "expected Set(ELSE), got {:?}",
        out[0]
    );
}

// -- first unknown elif promoted to new head ------------------------------

/// Dead head, dead elif, first unknown elif promoted; remaining elif + else preserved.
#[test]
fn unknown_elif_promoted_to_new_head_with_tail() {
    // if shell fish   -> dead
    //   elif shell zsh  -> dead
    //   elif have cargo -> unknown -> new head
    //   elif os linux   -> kept as elif on rebuilt node
    //   else ELSE       -> kept on rebuilt node
    let nodes = vec![Node::If(IfNode {
        cond: Cond::Shell("fish".into()),
        body: vec![set("FISH")],
        elifs: vec![
            (Cond::Shell("zsh".into()), vec![set("ZSH")]),
            (Cond::Have("cargo".into()), vec![set("CARGO")]),
            (Cond::Os("linux".into()), vec![set("LINUX")]),
        ],
        else_: vec![set("ELSE")],
    })];
    // `os linux` must stay undecided here, as the build host does not decide it;
    // on a Linux host it would be decided true and become the else.
    let out = prune_nodes(nodes, "bash", HostOs::Other);
    assert_eq!(out.len(), 1, "expected one rebuilt if-node: {:?}", out);
    let Node::If(rebuilt) = &out[0] else {
        panic!("expected If, got {:?}", out[0])
    };
    assert!(
        matches!(&rebuilt.cond, Cond::Have(cmd) if cmd == "cargo"),
        "new head should be Have(cargo), got {:?}",
        rebuilt.cond
    );
    assert_eq!(rebuilt.elifs.len(), 1, "one elif (os linux) should remain");
    assert_eq!(rebuilt.else_.len(), 1, "else should be preserved");
}

// -- compound condition folding + recursive pruning -----------------------

/// Outer unknown guard recurses into body: dead inner shell block dropped,
/// live sibling preserved. Verifies that pruning reaches nested nodes.
#[test]
fn dead_inner_block_pruned_inside_unknown_outer() {
    let outer = Node::If(IfNode {
        cond: Cond::Have("git".into()),
        body: vec![
            Node::If(bare_if(Cond::Shell("fish".into()), vec![set("DEAD")])),
            set("LIVE"),
        ],
        elifs: vec![],
        else_: vec![],
    });
    let out = prune_nodes(vec![outer], "bash", HostOs::Linux);
    assert_eq!(out.len(), 1, "outer if kept");
    let Node::If(outer_node) = &out[0] else {
        panic!("expected outer If")
    };
    assert_eq!(
        outer_node.body.len(),
        1,
        "dead inner if dropped, only set remains"
    );
    assert!(
        matches!(&outer_node.body[0], Node::SetEnv { key, .. } if key == "LIVE"),
        "expected Set(LIVE), got {:?}",
        outer_node.body[0]
    );
}

/// Four And/Or combinations with one shell operand: verifies all
/// short-circuit and identity folding rules in one pass.
#[test]
fn compound_and_or_folding() {
    // bash AND cargo -> Have(cargo) kept
    let out = prune_nodes(
        vec![Node::If(bare_if(
            Cond::And(
                Box::new(Cond::Shell("bash".into())),
                Box::new(Cond::Have("cargo".into())),
            ),
            vec![set("A")],
        ))],
        "bash",
        HostOs::Linux,
    );
    assert!(
        matches!(&out[..], [Node::If(n)] if matches!(&n.cond, Cond::Have(c) if c == "cargo")),
        "bash AND cargo should reduce to Have(cargo): {:?}",
        out
    );

    // fish AND cargo -> dropped
    let out = prune_nodes(
        vec![Node::If(bare_if(
            Cond::And(
                Box::new(Cond::Shell("fish".into())),
                Box::new(Cond::Have("cargo".into())),
            ),
            vec![set("B")],
        ))],
        "bash",
        HostOs::Linux,
    );
    assert!(
        out.is_empty(),
        "fish AND cargo for bash should drop: {:?}",
        out
    );

    // fish OR cargo -> Have(cargo) kept
    let out = prune_nodes(
        vec![Node::If(bare_if(
            Cond::Or(
                Box::new(Cond::Shell("fish".into())),
                Box::new(Cond::Have("cargo".into())),
            ),
            vec![set("C")],
        ))],
        "bash",
        HostOs::Linux,
    );
    assert!(
        matches!(&out[..], [Node::If(n)] if matches!(&n.cond, Cond::Have(c) if c == "cargo")),
        "fish OR cargo for bash should reduce to Have(cargo): {:?}",
        out
    );

    // bash OR cargo -> body inlined
    let out = prune_nodes(
        vec![Node::If(bare_if(
            Cond::Or(
                Box::new(Cond::Shell("bash".into())),
                Box::new(Cond::Have("cargo".into())),
            ),
            vec![set("D")],
        ))],
        "bash",
        HostOs::Linux,
    );
    assert!(
        matches!(&out[..], [Node::SetEnv { key, .. }] if key == "D"),
        "bash OR cargo for bash should inline body: {:?}",
        out
    );
}

/// `not` folds correctly: not(self-shell)=false, not(other-shell)=true,
/// not(runtime-cond) stays as Not(Have).
#[test]
fn not_folding_self_other_and_runtime() {
    // not shell bash for bash -> false -> dropped
    let dead = prune_nodes(
        vec![Node::If(bare_if(
            Cond::Not(Box::new(Cond::Shell("bash".into()))),
            vec![set("DEAD")],
        ))],
        "bash",
        HostOs::Linux,
    );
    assert!(dead.is_empty(), "not(self-shell) should drop: {:?}", dead);

    // not shell fish for bash -> true -> inline
    let live = prune_nodes(
        vec![Node::If(bare_if(
            Cond::Not(Box::new(Cond::Shell("fish".into()))),
            vec![set("LIVE")],
        ))],
        "bash",
        HostOs::Linux,
    );
    assert_eq!(live.len(), 1);
    assert!(
        matches!(&live[0], Node::SetEnv { .. }),
        "not(other-shell) should inline body"
    );

    // not have cargo -> Not(Have) stays unknown
    let unknown = prune_nodes(
        vec![Node::If(bare_if(
            Cond::Not(Box::new(Cond::Have("cargo".into()))),
            vec![set("NO_CARGO")],
        ))],
        "bash",
        HostOs::Linux,
    );
    assert_eq!(unknown.len(), 1);
    assert!(
        matches!(&unknown[0], Node::If(n) if matches!(&n.cond, Cond::Not(_))),
        "not(have) should remain as Not(Have): {:?}",
        unknown
    );
}

// -- further cases ------------------------------------------------------------

fn bare(cond: Cond, key: &str) -> Node {
    Node::If(bare_if(cond, vec![set(key)]))
}

#[test]
fn os_folds_for_known_host_only() {
    let src = || vec![bare(Cond::Os("linux".into()), "L"), bare(Cond::Os("darwin".into()), "D")];
    assert_eq!(prune_nodes(src(), "bash", HostOs::Linux), vec![set("L")]);
    assert_eq!(prune_nodes(src(), "bash", HostOs::Darwin), vec![set("D")]);
    assert_eq!(prune_nodes(src(), "bash", HostOs::Windows), vec![]);
    assert_eq!(prune_nodes(src(), "bash", HostOs::Other), src());
}

#[test]
fn unknown_os_name_is_never_folded() {
    let n = vec![bare(Cond::Os("freebsd".into()), "F")];
    assert_eq!(prune_nodes(n.clone(), "fish", HostOs::Linux), n);
}

#[test]
fn runtime_checks_pass_through_unchanged() {
    let n = vec![
        bare(
            Cond::And(
                Box::new(Cond::Have("git".into())),
                Box::new(Cond::Or(
                    Box::new(Cond::Env("X".into())),
                    Box::new(Cond::Not(Box::new(Cond::Exists("/p".into())))),
                )),
            ),
            "A",
        ),
        set("B"),
    ];
    assert_eq!(prune_nodes(n.clone(), "pwsh", HostOs::Windows), n);
}

#[test]
fn pruning_twice_changes_nothing() {
    let n = vec![Node::If(IfNode {
        cond: Cond::Shell("fish".into()),
        body: vec![set("FISH")],
        elifs: vec![
            (Cond::Have("cargo".into()), vec![bare(Cond::Shell("zsh".into()), "Z"), set("C")]),
            (Cond::Shell("zsh".into()), vec![set("ZSH")]),
        ],
        else_: vec![bare(Cond::Os("linux".into()), "L")],
    })];
    let once = prune_nodes(n, "zsh", HostOs::Linux);
    let twice = prune_nodes(once.clone(), "zsh", HostOs::Linux);
    assert_eq!(once, twice);
    // The first undecided elif becomes the head; the later `shell zsh` elif is
    // decided true for zsh, so its body becomes the else and the old else goes.
    let Node::If(head) = &once[0] else { panic!("{:?}", once) };
    assert_eq!(head.cond, Cond::Have("cargo".into()));
    assert_eq!(head.body, vec![set("Z"), set("C")]);
    assert!(head.elifs.is_empty(), "{:?}", head.elifs);
    assert_eq!(head.else_, vec![set("ZSH")]);
}

#[test]
fn dead_elif_under_undecided_head_is_dropped() {
    let nodes = vec![Node::If(IfNode {
        cond: Cond::Have("git".into()),
        body: vec![set("G")],
        elifs: vec![(Cond::Shell("fish".into()), vec![set("F")])],
        else_: vec![],
    })];
    assert_eq!(
        prune_nodes(nodes, "bash", HostOs::Linux),
        vec![Node::If(bare_if(Cond::Have("git".into()), vec![set("G")]))]
    );
}

#[test]
fn true_elif_under_undecided_head_becomes_else() {
    let nodes = vec![Node::If(IfNode {
        cond: Cond::Have("git".into()),
        body: vec![set("G")],
        elifs: vec![
            (Cond::Env("X".into()), vec![set("X")]),
            (Cond::Not(Box::new(Cond::Shell("fish".into()))), vec![set("NF")]),
            (Cond::Have("late".into()), vec![set("L")]),
        ],
        else_: vec![set("E")],
    })];
    assert_eq!(
        prune_nodes(nodes, "bash", HostOs::Linux),
        vec![Node::If(IfNode {
            cond: Cond::Have("git".into()),
            body: vec![set("G")],
            elifs: vec![(Cond::Env("X".into()), vec![set("X")])],
            else_: vec![set("NF")],
        })]
    );
}

#[test]
fn undecided_elif_condition_is_reduced() {
    let nodes = vec![Node::If(IfNode {
        cond: Cond::Have("git".into()),
        body: vec![],
        elifs: vec![(
            Cond::And(Box::new(Cond::Shell("bash".into())), Box::new(Cond::Have("x".into()))),
            vec![set("X")],
        )],
        else_: vec![],
    })];
    let out = prune_nodes(nodes, "bash", HostOs::Linux);
    let Node::If(head) = &out[0] else { panic!("{:?}", out) };
    assert_eq!(head.elifs, vec![(Cond::Have("x".into()), vec![set("X")])]);
}

#[test]
fn clone_copies_the_whole_tree() {
    let n = vec![Node::If(IfNode {
        cond: Cond::Not(Box::new(Cond::And(
            Box::new(Cond::Os("linux".into())),
            Box::new(Cond::Env("E".into())),
        ))),
        body: vec![set("A")],
        elifs: vec![(Cond::Shell("zsh".into()), vec![bare(Cond::Have("x".into()), "B")])],
        else_: vec![Node::Alias { name: "a".into(), body: "b c".into() }],
    })];
    assert_eq!(n.clone(), n);
}
