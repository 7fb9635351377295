use cmdscript::ast::CommandNode;
use cmdscript::ast::Condition;
use cmdscript::ast::Statement;
use cmdscript::env::Environment;
use cmdscript::event::Event;
use cmdscript::exec::execute;
use cmdscript::exec::execute_statements_only;
use cmdscript::exec::find_node;
use cmdscript::exec::find_subnode;
use cmdscript::registry::Registry;

fn s(text: &str) -> String {
    text.to_string()
}

fn strs(texts: &[&str]) -> Vec<String> {
    texts.iter().map(|t| t.to_string()).collect()
}

fn node(name: &str, params: &[&str], statements: Vec<Statement>) -> CommandNode {
    CommandNode { name: s(name), params: strs(params), statements }
}

fn assign(name: &str, value: &str) -> Statement {
    Statement::Assignment(s(name), s(value))
}

fn exec(cmd: &str) -> Statement {
    Statement::Exec(s(cmd))
}

fn run_block(statements: &[Statement], nodes: &[CommandNode], depth: usize) -> (Environment, Vec<Event>) {
    let registry = Registry::from_nodes(nodes);
    let mut env = Environment::new();
    let mut out = Vec::new();
    let mut path = Vec::new();
    execute_statements_only(statements, &mut path, &mut env, &registry, &mut out, depth);
    assert!(path.is_empty());
    (env, out)
}

fn run_node(
    target: &CommandNode,
    nodes: &[CommandNode],
    args: &[&str],
    subpath: Option<&[&str]>,
    depth: usize,
) -> (Environment, Vec<Event>) {
    let registry = Registry::from_nodes(nodes);
    let mut env = Environment::new();
    let mut out = Vec::new();
    let mut path = vec![s("outer")];
    let args = strs(args);
    let sub: Option<Vec<String>> = subpath.map(|p| strs(p));
    execute(target, &mut path, &mut env, &registry, &args, sub.as_deref(), &mut out, depth);
    assert_eq!(path, vec![s("outer")]);
    (env, out)
}

#[test]
fn registry_keeps_the_last_node_of_a_name() {
    let first = node("build", &[], vec![exec("first")]);
    let second = node("build", &[], vec![exec("second")]);
    let mut registry = Registry::new();
    registry.register(&first);
    registry.register(&second);
    assert_eq!(registry.get("build"), Some(&second));

    let nodes = vec![
        node("build", &[], vec![exec("first")]),
        node("test", &[], vec![]),
        node("build", &[], vec![exec("second")]),
    ];
    let registry = Registry::from_nodes(&nodes);
    assert_eq!(registry.get("build"), Some(&nodes[2]));
    assert_eq!(registry.get("test"), Some(&nodes[1]));
}

#[test]
fn registry_does_not_find_an_unknown_name() {
    let nodes = vec![node("build", &[], vec![])];
    let registry = Registry::from_nodes(&nodes);
    assert_eq!(registry.get("deploy"), None);
    assert_eq!(registry.get(""), None);
    assert_eq!(Registry::new().get("build"), None);
}

#[test]
fn find_node_takes_the_last_of_a_name() {
    let nodes = vec![
        node("a", &[], vec![]),
        node("b", &[], vec![exec("first")]),
        node("b", &[], vec![exec("second")]),
        node("c", &[], vec![]),
    ];
    assert_eq!(find_node(&nodes, "b"), Some(&nodes[2]));
    assert_eq!(find_node(&nodes, "a"), Some(&nodes[0]));
    assert_eq!(find_node(&nodes, "c"), Some(&nodes[3]));
    assert_eq!(find_node(&nodes, "d"), None);
    assert_eq!(find_node(&[], "a"), None);
}

#[test]
fn find_node_agrees_with_the_registry() {
    let nodes = vec![
        node("a", &[], vec![assign("v", "old")]),
        node("b", &[], vec![]),
        node("a", &[], vec![assign("v", "new")]),
    ];
    let registry = Registry::from_nodes(&nodes);
    assert_eq!(find_node(&nodes, "a"), registry.get("a"));
    assert_eq!(find_node(&nodes, "b"), registry.get("b"));
    assert_eq!(find_node(&nodes, "c"), registry.get("c"));
    assert_eq!(find_node(&nodes, "a"), Some(&nodes[2]));
}

#[test]
fn find_subnode_takes_the_first_declared_child_of_a_name() {
    let parent = node(
        "build",
        &[],
        vec![
            exec("release"),
            assign("release", "1"),
            Statement::Command(node("debug", &[], vec![])),
            Statement::Command(node("release", &[], vec![exec("one")])),
            Statement::Command(node("release", &[], vec![exec("two")])),
        ],
    );
    assert_eq!(find_subnode(&parent, "release"), Some(&node("release", &[], vec![exec("one")])));
    assert_eq!(find_subnode(&parent, "debug"), Some(&node("debug", &[], vec![])));
    assert_eq!(find_subnode(&parent, "build"), None);
}

#[test]
fn find_subnode_does_not_look_into_nested_blocks_or_grandchildren() {
    let parent = node(
        "build",
        &[],
        vec![
            Statement::Command(node("a", &[], vec![Statement::Command(node("deep", &[], vec![]))])),
            Statement::If {
                condition: Condition { left: s("a"), op: s("=="), right: s("a") },
                then_block: vec![Statement::Command(node("hidden", &[], vec![]))],
                else_block: None,
            },
        ],
    );
    assert_eq!(find_subnode(&parent, "deep"), None);
    assert_eq!(find_subnode(&parent, "hidden"), None);
}

#[test]
fn exec_statement_records_the_expanded_command() {
    let (env, out) = run_block(&[assign("who", "world"), exec("echo hello $who ")], &[], 8);
    assert_eq!(
        out,
        vec![Event::Assign(s("who"), s("world")), Event::Exec(s("echo hello world "))]
    );
    assert_eq!(env.get("who"), Some(s("world")));
}

#[test]
fn assignment_expands_its_value_first() {
    let (env, out) = run_block(&[assign("a", "1"), assign("b", "$a$a"), assign("a", "$b+")], &[], 8);
    assert_eq!(env.get("a"), Some(s("11+")));
    assert_eq!(env.get("b"), Some(s("11")));
    assert_eq!(
        out,
        vec![
            Event::Assign(s("a"), s("1")),
            Event::Assign(s("b"), s("11")),
            Event::Assign(s("a"), s("11+")),
        ]
    );
}

#[test]
fn declaring_a_subcommand_does_not_run_it() {
    let block = vec![Statement::Command(node("inner", &[], vec![assign("x", "1")]))];
    let (env, out) = run_block(&block, &[], 8);
    assert_eq!(env.get("x"), None);
    assert!(out.is_empty());
}

#[test]
fn empty_block_changes_nothing() {
    let (env, out) = run_block(&[], &[], 8);
    assert_eq!(env.get("x"), None);
    assert!(out.is_empty());
}

#[test]
fn for_loop_leaves_the_last_item_bound() {
    let block = vec![Statement::For {
        var: s("loopvar"),
        items: strs(&["a", "b", "c"]),
        block: vec![assign("x", "$loopvar")],
    }];
    let (env, out) = run_block(&block, &[], 8);
    assert_eq!(env.get("x"), Some(s("c")));
    assert_eq!(env.get("loopvar"), Some(s("c")));
    assert_eq!(
        out,
        vec![
            Event::Assign(s("x"), s("a")),
            Event::Assign(s("x"), s("b")),
            Event::Assign(s("x"), s("c")),
        ]
    );
}

#[test]
fn for_loop_rounds_see_each_other() {
    let block = vec![
        assign("acc", "-"),
        Statement::For {
            var: s("i"),
            items: strs(&["1", "2", "$acc"]),
            block: vec![assign("acc", "$acc$i")],
        },
    ];
    let (env, _) = run_block(&block, &[], 8);
    assert_eq!(env.get("acc"), Some(s("-12-12")));
    assert_eq!(env.get("i"), Some(s("-12")));
}

#[test]
fn for_loop_over_nothing_binds_nothing() {
    let block = vec![Statement::For { var: s("i"), items: vec![], block: vec![assign("x", "1")] }];
    let (env, out) = run_block(&block, &[], 8);
    assert_eq!(env.get("i"), None);
    assert_eq!(env.get("x"), None);
    assert!(out.is_empty());
}

#[test]
fn if_runs_the_then_block_when_the_condition_holds() {
    let block = vec![Statement::If {
        condition: Condition { left: s("a"), op: s("=="), right: s("a") },
        then_block: vec![assign("z", "1")],
        else_block: None,
    }];
    let (env, out) = run_block(&block, &[], 8);
    assert_eq!(env.get("z"), Some(s("1")));
    assert_eq!(out, vec![Event::Assign(s("z"), s("1"))]);
}

#[test]
fn if_runs_the_else_block_when_the_condition_fails() {
    let block = vec![Statement::If {
        condition: Condition { left: s("a"), op: s("=="), right: s("b") },
        then_block: vec![assign("z", "then")],
        else_block: Some(vec![assign("z", "else")]),
    }];
    let (env, _) = run_block(&block, &[], 8);
    assert_eq!(env.get("z"), Some(s("else")));
}

#[test]
fn if_without_else_does_nothing_when_the_condition_fails() {
    let block = vec![Statement::If {
        condition: Condition { left: s("a"), op: s("~"), right: s("a") },
        then_block: vec![assign("z", "then")],
        else_block: None,
    }];
    let (env, out) = run_block(&block, &[], 8);
    assert_eq!(env.get("z"), None);
    assert!(out.is_empty());
}

#[test]
fn dependencies_share_the_environment() {
    let nodes = vec![
        node("d1", &[], vec![assign("y", "1")]),
        node("d2", &[], vec![assign("seen", "$y")]),
    ];
    let block = vec![Statement::Depends(strs(&["d1", "d2"])), assign("after", "$seen$y")];
    let (env, out) = run_block(&block, &nodes, 8);
    assert_eq!(env.get("y"), Some(s("1")));
    assert_eq!(env.get("seen"), Some(s("1")));
    assert_eq!(env.get("after"), Some(s("11")));
    assert_eq!(
        out,
        vec![
            Event::Depends(s("d1")),
            Event::Assign(s("y"), s("1")),
            Event::Depends(s("d2")),
            Event::Assign(s("seen"), s("1")),
            Event::Assign(s("after"), s("11")),
        ]
    );
}

#[test]
fn unknown_dependency_is_passed_over_in_silence() {
    let nodes = vec![node("known", &[], vec![assign("k", "1")])];
    let block = vec![Statement::Depends(strs(&["ghost", "known", "other"]))];
    let (env, out) = run_block(&block, &nodes, 8);
    assert_eq!(env.get("k"), Some(s("1")));
    assert_eq!(out, vec![Event::Depends(s("known")), Event::Assign(s("k"), s("1"))]);
}

#[test]
fn dependency_runs_the_last_declared_node_with_its_subtree_and_no_arguments() {
    let nodes = vec![
        node("dep", &["p"], vec![assign("which", "first")]),
        node(
            "dep",
            &["p"],
            vec![
                assign("which", "second $p"),
                Statement::Command(node("child", &[], vec![assign("child", "ran")])),
            ],
        ),
    ];
    let block = vec![Statement::Depends(strs(&["dep"]))];
    let (env, _) = run_block(&block, &nodes, 8);
    assert_eq!(env.get("which"), Some(s("second $p")));
    assert_eq!(env.get("child"), Some(s("ran")));
    assert_eq!(env.get("p"), None);
}

#[test]
fn dependency_cycle_stops_at_the_depth_limit() {
    let nodes = vec![node("a", &[], vec![exec("step"), Statement::Depends(strs(&["a"]))])];
    let (_, out) = run_node(&nodes[0], &nodes, &[], Some(&[]), 2);
    assert_eq!(
        out,
        vec![
            Event::Exec(s("step")),
            Event::Depends(s("a")),
            Event::Exec(s("step")),
            Event::Depends(s("a")),
            Event::Exec(s("step")),
            Event::DepthLimit(s("a")),
        ]
    );
}

#[test]
fn depth_zero_runs_no_dependency() {
    let nodes = vec![node("dep", &[], vec![assign("x", "1")])];
    let block = vec![Statement::Depends(strs(&["dep", "nobody"])), assign("y", "2")];
    let (env, out) = run_block(&block, &nodes, 0);
    assert_eq!(env.get("x"), None);
    assert_eq!(out, vec![Event::DepthLimit(s("dep")), Event::Assign(s("y"), s("2"))]);
}

#[test]
fn dependency_that_guards_itself_ends_by_itself() {
    let nodes = vec![node(
        "once",
        &[],
        vec![Statement::If {
            condition: Condition { left: s("$done"), op: s("!="), right: s("yes") },
            then_block: vec![assign("done", "yes"), Statement::Depends(strs(&["once"]))],
            else_block: None,
        }],
    )];
    let (env, out) = run_node(&nodes[0], &nodes, &[], None, 8);
    assert_eq!(env.get("done"), Some(s("yes")));
    assert_eq!(out, vec![Event::Assign(s("done"), s("yes")), Event::Depends(s("once"))]);
}

#[test]
fn parameters_are_bound_by_position() {
    let target = node("deploy", &["env", "tag"], vec![assign("line", "$env:$tag")]);
    let (env, out) = run_node(&target, &[], &["prod", "v1"], Some(&[]), 8);
    assert_eq!(env.get("env"), Some(s("prod")));
    assert_eq!(env.get("tag"), Some(s("v1")));
    assert_eq!(env.get("line"), Some(s("prod:v1")));
    assert_eq!(
        out,
        vec![
            Event::Param(s("env"), s("prod")),
            Event::Param(s("tag"), s("v1")),
            Event::Assign(s("line"), s("prod:v1")),
        ]
    );
}

#[test]
fn extra_arguments_are_ignored() {
    let target = node("deploy", &["env"], vec![]);
    let (env, out) = run_node(&target, &[], &["prod", "v1", "more"], Some(&[]), 8);
    assert_eq!(env.get("env"), Some(s("prod")));
    assert_eq!(out, vec![Event::Param(s("env"), s("prod"))]);
}

#[test]
fn missing_arguments_leave_parameters_unbound() {
    let target = node("deploy", &["env", "tag"], vec![assign("line", "$env:$tag")]);
    let (env, out) = run_node(&target, &[], &["prod"], Some(&[]), 8);
    assert_eq!(env.get("env"), Some(s("prod")));
    assert_eq!(env.get("tag"), None);
    assert_eq!(env.get("line"), Some(s("prod:$tag")));
    assert_eq!(
        out,
        vec![Event::Param(s("env"), s("prod")), Event::Assign(s("line"), s("prod:$tag"))]
    );
}

fn build_tree() -> CommandNode {
    node(
        "build",
        &[],
        vec![
            exec("own-1"),
            Statement::Command(node(
                "release",
                &["flag"],
                vec![
                    exec("release $flag"),
                    Statement::Command(node("strip", &[], vec![exec("strip")])),
                ],
            )),
            exec("own-2"),
            Statement::Command(node("debug", &[], vec![exec("debug")])),
        ],
    )
}

#[test]
fn empty_path_runs_only_the_own_statements_once() {
    let tree = build_tree();
    let (_, out) = run_node(&tree, &[], &[], Some(&[]), 8);
    assert_eq!(out, vec![Event::Exec(s("own-1")), Event::Exec(s("own-2"))]);
}

#[test]
fn deeper_path_runs_the_own_statements_once_and_first() {
    let tree = build_tree();
    let (_, out) = run_node(&tree, &[], &[], Some(&["release"]), 8);
    assert_eq!(
        out,
        vec![Event::Exec(s("own-1")), Event::Exec(s("own-2")), Event::Exec(s("release $flag"))]
    );
    let (_, out) = run_node(&tree, &[], &[], Some(&["release", "strip"]), 8);
    assert_eq!(
        out,
        vec![
            Event::Exec(s("own-1")),
            Event::Exec(s("own-2")),
            Event::Exec(s("release $flag")),
            Event::Exec(s("strip")),
        ]
    );
}

#[test]
fn missing_subcommand_is_reported_and_ends_the_branch() {
    let tree = node(
        "build",
        &[],
        vec![exec("own"), Statement::Command(node("debug", &[], vec![exec("debug")]))],
    );
    let (_, out) = run_node(&tree, &[], &[], Some(&["release"]), 8);
    assert_eq!(
        out,
        vec![Event::Exec(s("own")), Event::SubcommandNotFound(s("release"), s("build"))]
    );
    let (_, out) = run_node(&tree, &[], &[], Some(&["debug", "deeper", "still"]), 8);
    assert_eq!(
        out,
        vec![
            Event::Exec(s("own")),
            Event::Exec(s("debug")),
            Event::SubcommandNotFound(s("deeper"), s("debug")),
        ]
    );
}

#[test]
fn no_path_runs_own_statements_then_every_subcommand_in_order() {
    let tree = build_tree();
    let (_, out) = run_node(&tree, &[], &[], None, 8);
    assert_eq!(
        out,
        vec![
            Event::Exec(s("own-1")),
            Event::Exec(s("own-2")),
            Event::Exec(s("release $flag")),
            Event::Exec(s("strip")),
            Event::Exec(s("debug")),
        ]
    );
}

#[test]
fn arguments_are_bound_at_the_target_node_only() {
    let tree = node(
        "build",
        &["flag"],
        vec![Statement::Command(node("release", &["mode"], vec![exec("$flag $mode")]))],
    );
    let (env, out) = run_node(&tree, &[], &["fast", "other"], None, 8);
    assert_eq!(env.get("flag"), Some(s("fast")));
    assert_eq!(env.get("mode"), None);
    assert_eq!(out, vec![Event::Param(s("flag"), s("fast")), Event::Exec(s("fast $mode"))]);
}

#[test]
fn events_are_appended_to_what_is_there() {
    let registry = Registry::new();
    let mut env = Environment::new();
    env.set(s("x"), s("old"));
    let mut out = vec![Event::Exec(s("before"))];
    let mut path = Vec::new();
    execute_statements_only(&[exec("$x")], &mut path, &mut env, &registry, &mut out, 1);
    assert_eq!(out, vec![Event::Exec(s("before")), Event::Exec(s("old"))]);
}
