//! The interpreter: runs statements and nodes against one environment and
//! records what the run asks of the world.

use vstd::prelude::*;
use vstd::slice::slice_subrange;
use crate::ast::CommandNode;
use crate::ast::Statement;
use crate::ast::block_view;
use crate::ast::lemma_block_view;
use crate::ast::nodes_view;
use crate::ast::texts;
use crate::env::Bindings;
use crate::env::Environment;
use crate::env::well_formed;
use crate::event::Event;
use crate::event::events_view;
use crate::laws::lemma_block_continues;
use crate::laws::lemma_node_continues;
use crate::registry::Registry;
use crate::registry::called;
use crate::semantics::State;
use crate::semantics::bind_params;
use crate::semantics::declares;
use crate::semantics::run_block;
use crate::semantics::run_children;
use crate::semantics::run_dep;
use crate::semantics::run_deps;
use crate::semantics::run_for;
use crate::semantics::run_node;
use crate::semantics::run_stmt;
use crate::seqs::first_index;
use crate::seqs::last_index;
use crate::seqs::lemma_first_index_is;
use crate::seqs::lemma_last_index_is;
use crate::text::equal;

verus! {

/// The state that an environment's bindings and a list of events stand for.
pub open spec fn state_of(vars: Bindings, events: Seq<Event>) -> State {
    State { vars, log: events_view(events) }
}

/// What an optional path says.
pub open spec fn path_view(path: Option<&[String]>) -> Option<Seq<Seq<char>>> {
    match path {
        Some(names) => Some(texts(names@)),
        None => None,
    }
}

/// The first sub-command of `node` called `name`, if `node` declares one.
pub fn find_subnode<'a>(node: &'a CommandNode, name: &str) -> (r: Option<&'a CommandNode>)
    ensures
        ({
            let i = first_index(node@.body, declares(name@));
            match r {
                Some(child) => 0 <= i < node.statements@.len() && node.statements@[i]
                    == Statement::Command(*child),
                None => i == node@.body.len(),
            }
        }),
{
    let ghost body = node@.body;
    proof {
        lemma_block_view(node.statements@);
    }
    let n = node.statements.len();
    let mut i: usize = 0;
    while i < n
        invariant
            n == node.statements@.len(),
            body == block_view(node.statements@),
            body.len() == n,
            i <= n,
            forall|j: int| 0 <= j < i ==> !declares(name@)(#[trigger] body[j]),
        decreases n - i,
    {
        proof {
            lemma_block_view(node.statements@);
        }
        if let Statement::Command(child) = &node.statements[i] {
            if equal(child.name.as_str(), name) {
                proof {
                    lemma_first_index_is(body, declares(name@), i as int);
                }
                return Some(child);
            }
        }
        i += 1;
    }
    proof {
        lemma_first_index_is(body, declares(name@), n as int);
    }
    None
}

/// The last of `nodes` called `name`, if there is one: the node that the
/// name leads to once all of `nodes` are registered.
pub fn find_node<'a>(nodes: &'a [CommandNode], name: &str) -> (r: Option<&'a CommandNode>)
    ensures
        ({
            let i = last_index(nodes_view(nodes@), called(name@));
            match r {
                Some(node) => 0 <= i < nodes@.len() && *node == nodes@[i],
                None => i == -1,
            }
        }),
{
    let n = nodes.len();
    let mut i: usize = n;
    while i > 0
        invariant
            n == nodes@.len(),
            i <= n,
            forall|j: int| i <= j < n ==> !called(name@)(#[trigger] nodes_view(nodes@)[j]),
        decreases i,
    {
        i -= 1;
        if equal(nodes[i].name.as_str(), name) {
            proof {
                lemma_last_index_is(nodes_view(nodes@), called(name@), i as int);
            }
            return Some(&nodes[i]);
        }
    }
    proof {
        lemma_last_index_is(nodes_view(nodes@), called(name@), -1);
    }
    None
}

/// Runs `statements` in order against `env`, and appends to `out` what the
/// run asks for. Dependencies are looked up in `all_nodes` and may nest
/// `depth` levels deep. `path` is the same afterwards.
#[verifier::loop_isolation(false)]
pub fn execute_statements_only(
    statements: &[Statement],
    path: &mut Vec<String>,
    env: &mut Environment,
    all_nodes: &Registry,
    out: &mut Vec<Event>,
    depth: usize,
)
    ensures
        state_of(final(env)@, final(out)@) == run_block(
            block_view(statements@),
            state_of(old(env)@, old(out)@),
            all_nodes@,
            depth as nat,
        ),
        well_formed(final(env)@),
        final(path)@ == old(path)@,
    decreases depth, statements@,
{
    proof {
        use_type_invariant(&*env);
    }
    let ghost stmts = block_view(statements@);
    let ghost start = state_of(env@, out@);
    let ghost table = all_nodes@;
    let n = statements.len();
    let mut i: usize = 0;
    proof {
        lemma_block_view(statements@);
        assert(stmts.skip(0) =~= stmts);
    }
    while i < n
        invariant
            i <= n,
            path@ == old(path)@,
            run_block(stmts, start, table, depth as nat) == run_block(
                stmts.skip(i as int),
                state_of(env@, out@),
                table,
                depth as nat,
            ),
        decreases n - i,
    {
        let ghost here = state_of(env@, out@);
        let ghost events = out@;
        assert(stmts.skip(i as int)[0] == statements@[i as int]@);
        assert(stmts.skip(i as int).skip(1) =~= stmts.skip(i as int + 1));
        match &statements[i] {
            Statement::Command(_) => {
                assert(here == run_stmt(stmts[i as int], here, table, depth as nat));
            },
            Statement::Exec(cmd) => {
                let expanded = env.expand(cmd.as_str());
                out.push(Event::Exec(expanded));
                assert(events_view(out@) =~= events_view(events).push(out@.last()@));
                assert(state_of(env@, out@) == run_stmt(stmts[i as int], here, table, depth as nat));
            },
            Statement::Assignment(name, value) => {
                let expanded = env.expand(value.as_str());
                env.set(name.clone(), expanded.clone());
                out.push(Event::Assign(name.clone(), expanded));
                assert(events_view(out@) =~= events_view(events).push(out@.last()@));
                assert(state_of(env@, out@) == run_stmt(stmts[i as int], here, table, depth as nat));
            },
            Statement::Depends(deps) => {
                let ghost names = texts(deps@);
                let m = deps.len();
                let mut k: usize = 0;
                assert(names.skip(0) =~= names);
                while k < m
                    invariant
                        k <= m,
                        path@ == old(path)@,
                        run_deps(names, here, table, depth as nat) == run_deps(
                            names.skip(k as int),
                            state_of(env@, out@),
                            table,
                            depth as nat,
                        ),
                    decreases m - k,
                {
                    let ghost seen = out@;
                    let ghost before = state_of(env@, out@);
                    assert(names.skip(k as int).skip(1) =~= names.skip(k as int + 1));
                    assert(names.skip(k as int)[0] == deps@[k as int]@);
                    match all_nodes.get(deps[k].as_str()) {
                        Some(dep_node) => {
                            if depth == 0 {
                                out.push(Event::DepthLimit(deps[k].clone()));
                                assert(events_view(out@) =~= events_view(seen).push(
                                    out@.last()@,
                                ));
                            } else {
                                out.push(Event::Depends(deps[k].clone()));
                                assert(events_view(out@) =~= events_view(seen).push(
                                    out@.last()@,
                                ));
                                let mut dep_path: Vec<String> = Vec::new();
                                let no_args: Vec<String> = Vec::new();
                                assert(texts(no_args@) =~= Seq::<Seq<char>>::empty());
                                execute(
                                    dep_node,
                                    &mut dep_path,
                                    env,
                                    all_nodes,
                                    no_args.as_slice(),
                                    None,
                                    out,
                                    depth - 1,
                                );
                            }
                        },
                        None => {},
                    }
                    assert(state_of(env@, out@) == run_dep(
                        names[k as int],
                        before,
                        table,
                        depth as nat,
                    ));
                    k += 1;
                }
                assert(state_of(env@, out@) == run_stmt(stmts[i as int], here, table, depth as nat));
            },
            Statement::If { condition, then_block, else_block } => {
                if env.eval_condition(condition) {
                    execute_statements_only(then_block.as_slice(), path, env, all_nodes, out, depth);
                } else {
                    match else_block {
                        Some(else_stmts) => {
                            execute_statements_only(
                                else_stmts.as_slice(),
                                path,
                                env,
                                all_nodes,
                                out,
                                depth,
                            );
                        },
                        None => {},
                    }
                }
                assert(state_of(env@, out@) == run_stmt(stmts[i as int], here, table, depth as nat));
            },
            Statement::For { var, items, block } => {
                let ghost values = texts(items@);
                let ghost body = block_view(block@);
                let m = items.len();
                let mut k: usize = 0;
                assert(values.skip(0) =~= values);
                while k < m
                    invariant
                        k <= m,
                        path@ == old(path)@,
                        run_for(var@, values, body, here, table, depth as nat) == run_for(
                            var@,
                            values.skip(k as int),
                            body,
                            state_of(env@, out@),
                            table,
                            depth as nat,
                        ),
                    decreases m - k,
                {
                    assert(values.skip(k as int).skip(1) =~= values.skip(k as int + 1));
                    assert(values.skip(k as int)[0] == items@[k as int]@);
                    let expanded = env.expand(items[k].as_str());
                    env.set(var.clone(), expanded);
                    execute_statements_only(block.as_slice(), path, env, all_nodes, out, depth);
                    k += 1;
                }
                assert(state_of(env@, out@) == run_stmt(stmts[i as int], here, table, depth as nat));
            },
        }
        i += 1;
    }
    proof {
        lemma_block_continues(stmts, start, table, depth as nat);
    }
}

/// Runs `node`: binds its parameters to `args` by position, runs its own
/// statements, and then follows `subpath`: without one, every sub-command
/// runs; with an empty one, nothing more; otherwise the sub-command that
/// the first name picks, with the rest of the path. A name that picks none
/// is recorded, and nothing more runs. `path` is the same afterwards.
#[verifier::loop_isolation(false)]
pub fn execute(
    node: &CommandNode,
    path: &mut Vec<String>,
    env: &mut Environment,
    all_nodes: &Registry,
    args: &[String],
    subpath: Option<&[String]>,
    out: &mut Vec<Event>,
    depth: usize,
)
    ensures
        state_of(final(env)@, final(out)@) == run_node(
            node@,
            state_of(old(env)@, old(out)@),
            all_nodes@,
            texts(args@),
            path_view(subpath),
            depth as nat,
        ),
        well_formed(final(env)@),
        final(path)@ == old(path)@,
    decreases depth, node,
{
    proof {
        use_type_invariant(&*env);
    }
    let ghost start = state_of(env@, out@);
    let ghost table = all_nodes@;
    let ghost params = texts(node.params@);
    let ghost values = texts(args@);
    let ghost body = block_view(node.statements@);
    path.push(node.name.clone());
    let ghost inside = path@;

    let mut i: usize = 0;
    assert(params.skip(0) =~= params);
    assert(values.skip(0) =~= values);
    while i < node.params.len() && i < args.len()
        invariant
            i <= node.params@.len(),
            i <= args@.len(),
            path@ == inside,
            bind_params(params, values, start) == bind_params(
                params.skip(i as int),
                values.skip(i as int),
                state_of(env@, out@),
            ),
        decreases node.params@.len() - i,
    {
        let ghost seen = out@;
        assert(params.skip(i as int).skip(1) =~= params.skip(i as int + 1));
        assert(values.skip(i as int).skip(1) =~= values.skip(i as int + 1));
        env.set(node.params[i].clone(), args[i].clone());
        out.push(Event::Param(node.params[i].clone(), args[i].clone()));
        assert(events_view(out@) =~= events_view(seen).push(out@.last()@));
        i += 1;
    }

    execute_statements_only(node.statements.as_slice(), path, env, all_nodes, out, depth);
    let ghost own = state_of(env@, out@);

    match subpath {
        Some(sub) => {
            if sub.len() > 0 {
                match find_subnode(node, sub[0].as_str()) {
                    Some(child) => {
                        proof {
                            lemma_block_view(node.statements@);
                            let at = first_index(node@.body, declares(sub@[0]@));
                            assert(decreases_to!(node.statements => node.statements[at]));
                            let stmt = node.statements[at];
                            assert(stmt is Command);
                            assert(stmt->Command_0 == *child);
                            assert(decreases_to!(stmt => stmt->Command_0));
                        }
                        let rest = slice_subrange(sub, 1, sub.len());
                        let no_args: Vec<String> = Vec::new();
                        assert(texts(no_args@) =~= Seq::<Seq<char>>::empty());
                        assert(texts(rest@) =~= texts(sub@).skip(1));
                        execute(
                            child,
                            path,
                            env,
                            all_nodes,
                            no_args.as_slice(),
                            Some(rest),
                            out,
                            depth,
                        );
                    },
                    None => {
                        let ghost seen = out@;
                        out.push(Event::SubcommandNotFound(sub[0].clone(), node.name.clone()));
                        assert(events_view(out@) =~= events_view(seen).push(out@.last()@));
                    },
                }
            }
        },
        None => {
            let n = node.statements.len();
            let mut j: usize = 0;
            proof {
                lemma_block_view(node.statements@);
                assert(body.skip(0) =~= body);
            }
            while j < n
                invariant
                    j <= n,
                    path@ == inside,
                    run_children(body, own, table, depth as nat) == run_children(
                        body.skip(j as int),
                        state_of(env@, out@),
                        table,
                        depth as nat,
                    ),
                decreases n - j,
            {
                assert(body.skip(j as int).skip(1) =~= body.skip(j as int + 1));
                assert(body.skip(j as int)[0] == node.statements@[j as int]@);
                match &node.statements[j] {
                    Statement::Command(child) => {
                        let no_args: Vec<String> = Vec::new();
                        assert(texts(no_args@) =~= Seq::<Seq<char>>::empty());
                        execute(child, path, env, all_nodes, no_args.as_slice(), None, out, depth);
                    },
                    _ => {},
                }
                j += 1;
            }
        },
    }
    path.pop();
    assert(path@ =~= old(path)@);
    proof {
        lemma_node_continues(node@, start, table, values, path_view(subpath), depth as nat);
    }
}

} // verus!
