use cmdscript::ast::CommandNode;
use cmdscript::ast::Statement;
use cmdscript::env::Environment;
use cmdscript::event::Event;
use cmdscript::invoke::invoke;
use cmdscript::invoke::split_tokens;
use cmdscript::invoke::Invocation;
use cmdscript::invoke::InvocationError;

fn s(text: &str) -> String {
    text.to_string()
}

fn strs(texts: &[&str]) -> Vec<String> {
    texts.iter().map(|t| t.to_string()).collect()
}

fn node(name: &str, params: &[&str], statements: Vec<Statement>) -> CommandNode {
    CommandNode { name: s(name), params: strs(params), statements }
}

fn script() -> Vec<CommandNode> {
    vec![
        node(
            "build",
            &["mode"],
            vec![
                Statement::Exec(s("build $mode")),
                Statement::Command(node("release", &[], vec![Statement::Exec(s("release"))])),
                Statement::Command(node("debug", &[], vec![Statement::Exec(s("debug"))])),
            ],
        ),
        node("lint", &[], vec![Statement::Assignment(s("v"), s("old"))]),
        node("test", &[], vec![Statement::Depends(strs(&["lint"])), Statement::Exec(s("test $v"))]),
        node("lint", &[], vec![Statement::Assignment(s("v"), s("new"))]),
    ]
}

fn run(tokens: &[&str]) -> (Result<(), InvocationError>, Environment, Vec<Event>) {
    let nodes = script();
    let mut env = Environment::new();
    let mut out = Vec::new();
    let result = invoke(&nodes, &strs(tokens), &mut env, &mut out);
    (result, env, out)
}

#[test]
fn split_tells_names_from_flags() {
    let got = split_tokens(&strs(&["build", "--fast", "release", "--v=1"]));
    assert_eq!(
        got,
        Invocation { path: strs(&["build", "release"]), args: strs(&["fast", "v=1"]) }
    );
}

#[test]
fn split_strips_every_leading_pair_of_dashes() {
    let got = split_tokens(&strs(&["----x", "--", "---y", "-z", "a--b"]));
    assert_eq!(got.args, strs(&["x", "", "-y"]));
    assert_eq!(got.path, strs(&["-z", "a--b"]));
}

#[test]
fn split_of_nothing_is_empty() {
    let got = split_tokens(&[]);
    assert!(got.path.is_empty());
    assert!(got.args.is_empty());
}

#[test]
fn no_tokens_is_no_command() {
    let (result, env, out) = run(&[]);
    assert_eq!(result, Err(InvocationError::NoCommand));
    assert!(out.is_empty());
    assert_eq!(env.get("mode"), None);
}

#[test]
fn only_flags_is_no_command() {
    let (result, _, out) = run(&["--fast", "--build"]);
    assert_eq!(result, Err(InvocationError::NoCommand));
    assert!(out.is_empty());
}

#[test]
fn unknown_root_is_reported_and_runs_nothing() {
    let (result, env, out) = run(&["deploy", "--fast", "release"]);
    assert_eq!(result, Err(InvocationError::UnknownCommand(s("deploy"))));
    assert!(out.is_empty());
    assert_eq!(env.get("mode"), None);
}

#[test]
fn one_name_runs_the_node_with_its_subtree() {
    let (result, env, out) = run(&["build", "--fast"]);
    assert_eq!(result, Ok(()));
    assert_eq!(env.get("mode"), Some(s("fast")));
    assert_eq!(
        out,
        vec![
            Event::Param(s("mode"), s("fast")),
            Event::Exec(s("build fast")),
            Event::Exec(s("release")),
            Event::Exec(s("debug")),
        ]
    );
}

#[test]
fn longer_path_leads_down() {
    let (result, _, out) = run(&["--fast", "build", "debug"]);
    assert_eq!(result, Ok(()));
    assert_eq!(
        out,
        vec![
            Event::Param(s("mode"), s("fast")),
            Event::Exec(s("build fast")),
            Event::Exec(s("debug")),
        ]
    );
}

#[test]
fn path_to_a_missing_subcommand_still_succeeds_and_reports() {
    let (result, _, out) = run(&["build", "package"]);
    assert_eq!(result, Ok(()));
    assert_eq!(
        out,
        vec![
            Event::Exec(s("build $mode")),
            Event::SubcommandNotFound(s("package"), s("build")),
        ]
    );
}

#[test]
fn root_is_the_last_declared_node_of_its_name() {
    let (result, env, out) = run(&["lint"]);
    assert_eq!(result, Ok(()));
    assert_eq!(env.get("v"), Some(s("new")));
    assert_eq!(out, vec![Event::Assign(s("v"), s("new"))]);
}

#[test]
fn of_two_nodes_of_one_name_the_last_runs() {
    let nodes = vec![
        node("a", &[], vec![Statement::Assignment(s("v"), s("old"))]),
        node("a", &[], vec![Statement::Assignment(s("v"), s("new"))]),
    ];
    let mut env = Environment::new();
    let mut out = Vec::new();
    let result = invoke(&nodes, &strs(&["a"]), &mut env, &mut out);
    assert_eq!(result, Ok(()));
    assert_eq!(env.get("v"), Some(s("new")));
    assert_eq!(out, vec![Event::Assign(s("v"), s("new"))]);
}

#[test]
fn root_and_dependency_resolve_alike() {
    let (result, env, out) = run(&["test"]);
    assert_eq!(result, Ok(()));
    assert_eq!(env.get("v"), Some(s("new")));
    assert_eq!(
        out,
        vec![Event::Depends(s("lint")), Event::Assign(s("v"), s("new")), Event::Exec(s("test new"))]
    );
}

#[test]
fn chain_of_dependencies_through_every_node_runs_whole() {
    let nodes = vec![
        node("a", &[], vec![Statement::Depends(strs(&["b"])), Statement::Exec(s("a"))]),
        node("b", &[], vec![Statement::Depends(strs(&["c"])), Statement::Exec(s("b"))]),
        node("c", &[], vec![Statement::Depends(strs(&["d"])), Statement::Exec(s("c"))]),
        node("d", &[], vec![Statement::Exec(s("d"))]),
    ];
    let mut env = Environment::new();
    let mut out = Vec::new();
    let result = invoke(&nodes, &strs(&["a"]), &mut env, &mut out);
    assert_eq!(result, Ok(()));
    assert_eq!(
        out,
        vec![
            Event::Depends(s("b")),
            Event::Depends(s("c")),
            Event::Depends(s("d")),
            Event::Exec(s("d")),
            Event::Exec(s("c")),
            Event::Exec(s("b")),
            Event::Exec(s("a")),
        ]
    );
}

#[test]
fn circle_of_dependencies_is_cut() {
    let nodes = vec![
        node("a", &[], vec![Statement::Exec(s("a")), Statement::Depends(strs(&["b"]))]),
        node("b", &[], vec![Statement::Exec(s("b")), Statement::Depends(strs(&["a"]))]),
    ];
    let mut env = Environment::new();
    let mut out = Vec::new();
    let result = invoke(&nodes, &strs(&["a"]), &mut env, &mut out);
    assert_eq!(result, Ok(()));
    assert_eq!(
        out,
        vec![
            Event::Exec(s("a")),
            Event::Depends(s("b")),
            Event::Exec(s("b")),
            Event::Depends(s("a")),
            Event::Exec(s("a")),
            Event::DepthLimit(s("b")),
        ]
    );
}
