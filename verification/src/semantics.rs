//! What running a script means: a function from the state before to the
//! state after.

use vstd::prelude::*;
use crate::ast::NodeView;
use crate::ast::StmtView;
use crate::env::Bindings;
use crate::env::bind;
use crate::env::expand_all;
use crate::env::holds;
use crate::event::EventView;
use crate::seqs::first_index;

verus! {

/// The state of a run: the variables, and the events so far.
pub struct State {
    pub vars: Bindings,
    pub log: Seq<EventView>,
}

/// The registered nodes, by name.
pub type Table = Map<Seq<char>, NodeView>;

/// `st` with one more event.
pub open spec fn record(st: State, event: EventView) -> State {
    State { vars: st.vars, log: st.log.push(event) }
}

/// `st` with `name` bound to `value`.
pub open spec fn assign(st: State, name: Seq<char>, value: Seq<char>) -> State {
    State { vars: bind(st.vars, name, value), log: st.log }
}

/// The statements that declare a sub-command called `name`.
pub open spec fn declares(name: Seq<char>) -> spec_fn(StmtView) -> bool {
    |stmt: StmtView|
        match stmt {
            StmtView::Command(node) => node.name == name,
            _ => false,
        }
}

/// Binds the parameters to the arguments by position, and records each
/// binding. Arguments beyond the parameters are ignored; parameters beyond the
/// arguments stay as they were.
pub open spec fn bind_params(params: Seq<Seq<char>>, args: Seq<Seq<char>>, st: State) -> State
    decreases params.len(),
{
    if params.len() == 0 || args.len() == 0 {
        st
    } else {
        bind_params(
            params.skip(1),
            args.skip(1),
            record(assign(st, params[0], args[0]), EventView::Param(params[0], args[0])),
        )
    }
}

/// Runs a block: its statements, one after the other.
pub open spec fn run_block(stmts: Seq<StmtView>, st: State, table: Table, depth: nat) -> State
    decreases 2 * depth + 1, stmts, 0nat, 0nat,
{
    if stmts.len() == 0 {
        st
    } else {
        run_block(stmts.skip(1), run_stmt(stmts[0], st, table, depth), table, depth)
    }
}

/// Runs one statement.
///
/// - Declaring a sub-command does nothing.
/// - A shell command is expanded and recorded.
/// - An assignment expands the value, binds it and records it.
/// - A condition runs one of its blocks, or nothing.
/// - Dependencies and loops: see `run_deps` and `run_for`.
pub open spec fn run_stmt(stmt: StmtView, st: State, table: Table, depth: nat) -> State
    decreases 2 * depth + 1, stmt, 1nat, 0nat,
{
    match stmt {
        StmtView::Command(_) => st,
        StmtView::Exec(cmd) => record(st, EventView::Exec(expand_all(st.vars, cmd))),
        StmtView::Assignment(name, value) => {
            let expanded = expand_all(st.vars, value);
            record(assign(st, name, expanded), EventView::Assign(name, expanded))
        },
        StmtView::Depends(deps) => run_deps(deps, st, table, depth),
        StmtView::If(cond, then_block, else_block) => {
            if holds(st.vars, cond) {
                run_block(then_block, st, table, depth)
            } else {
                match else_block {
                    Some(stmts) => run_block(stmts, st, table, depth),
                    None => st,
                }
            }
        },
        StmtView::For(var, items, body) => run_for(var, items, body, st, table, depth),
    }
}

/// Runs the named dependencies in order. A name that is not registered is
/// passed over. A registered one is recorded and then run as a node of its
/// own: no arguments, the whole subtree, one level deeper. With no level left
/// it is not run, and that is recorded instead.
pub open spec fn run_deps(deps: Seq<Seq<char>>, st: State, table: Table, depth: nat) -> State
    decreases 2 * depth, deps, 0nat, 0nat,
{
    if deps.len() == 0 {
        st
    } else {
        run_deps(deps.skip(1), run_dep(deps[0], st, table, depth), table, depth)
    }
}

/// Runs one dependency, as `run_deps` says.
pub open spec fn run_dep(dep: Seq<char>, st: State, table: Table, depth: nat) -> State
    decreases 2 * depth, dep, 0nat, 0nat,
{
    if !table.dom().contains(dep) {
        st
    } else if depth == 0 {
        record(st, EventView::DepthLimit(dep))
    } else {
        run_node(
            table[dep],
            record(st, EventView::Depends(dep)),
            table,
            Seq::empty(),
            None,
            (depth - 1) as nat,
        )
    }
}

/// Runs a loop: each item in turn is expanded and bound to the loop variable,
/// then the body runs. What one round changes the next one sees, and the
/// last binding stays.
pub open spec fn run_for(
    var: Seq<char>,
    items: Seq<Seq<char>>,
    body: Seq<StmtView>,
    st: State,
    table: Table,
    depth: nat,
) -> State
    decreases 2 * depth + 1, body, 1nat, items.len(),
{
    if items.len() == 0 {
        st
    } else {
        let bound = assign(st, var, expand_all(st.vars, items[0]));
        run_for(var, items.skip(1), body, run_block(body, bound, table, depth), table, depth)
    }
}

/// Runs every sub-command that `stmts` declares, in order of declaration, each
/// without arguments and with its whole subtree.
pub open spec fn run_children(stmts: Seq<StmtView>, st: State, table: Table, depth: nat) -> State
    decreases 2 * depth + 1, stmts, 0nat, 0nat,
{
    if stmts.len() == 0 {
        st
    } else {
        let after = match stmts[0] {
            StmtView::Command(child) => run_node(child, st, table, Seq::empty(), None, depth),
            _ => st,
        };
        run_children(stmts.skip(1), after, table, depth)
    }
}

/// Runs a node: binds its parameters, runs its own statements, and then
///
/// - without a path, runs every sub-command it declares;
/// - with an empty path, stops;
/// - with a path, goes on in the first sub-command that carries the path's
///   first name, with the rest of the path and no arguments; where there
///   is no such sub-command, that is recorded and nothing more runs.
pub open spec fn run_node(
    node: NodeView,
    st: State,
    table: Table,
    args: Seq<Seq<char>>,
    subpath: Option<Seq<Seq<char>>>,
    depth: nat,
) -> State
    decreases 2 * depth + 1, node, 0nat, 0nat,
{
    let own = run_block(node.body, bind_params(node.params, args, st), table, depth);
    match subpath {
        None => run_children(node.body, own, table, depth),
        Some(path) => {
            if path.len() == 0 {
                own
            } else {
                let i = first_index(node.body, declares(path[0]));
                if 0 <= i < node.body.len() {
                    match node.body[i] {
                        StmtView::Command(child) => run_node(
                            child,
                            own,
                            table,
                            Seq::empty(),
                            Some(path.skip(1)),
                            depth,
                        ),
                        _ => own,
                    }
                } else {
                    record(own, EventView::SubcommandNotFound(path[0], node.name))
                }
            }
        },
    }
}

} // verus!
