//! What holds of every run, stated over the meaning of the operations.

use vstd::prelude::*;
use crate::ast::NodeView;
use crate::ast::StmtView;
use crate::env::Bindings;
use crate::env::bind;
use crate::env::lemma_bind_well_formed;
use crate::env::well_formed;
use crate::env::expand_all;
use crate::env::index_of;
use crate::env::lookup;
use crate::env::named;
use crate::env::pattern;
use crate::env::rank;
use crate::env::shorter_than;
use crate::event::EventView;
use crate::registry::table_of;
use crate::semantics::State;
use crate::semantics::Table;
use crate::semantics::assign;
use crate::semantics::bind_params;
use crate::semantics::declares;
use crate::semantics::record;
use crate::semantics::run_block;
use crate::semantics::run_children;
use crate::semantics::run_dep;
use crate::semantics::run_deps;
use crate::semantics::run_for;
use crate::semantics::run_node;
use crate::semantics::run_stmt;
use crate::seqs::first_index;
use crate::seqs::lemma_first_index;
use crate::seqs::lemma_first_index_is;
use crate::text::occurs_in;
use crate::text::replace_all;

verus! {

/// Replacing a text that does not occur changes nothing.
pub proof fn lemma_replace_absent(text: Seq<char>, from: Seq<char>, to: Seq<char>)
    requires
        !occurs_in(from, text),
    ensures
        replace_all(text, from, to) == text,
    decreases text.len(),
{
    if from.len() == 0 || text.len() < from.len() {
    } else {
        assert(text.skip(0) =~= text);
        assert(!from.is_prefix_of(text.skip(0)));
        let rest = text.skip(1);
        assert forall|i: int| 0 <= i <= rest.len() implies !#[trigger] from.is_prefix_of(
            rest.skip(i),
        ) by {
            assert(rest.skip(i) =~= text.skip(i + 1));
        }
        lemma_replace_absent(rest, from, to);
        assert(seq![text[0]] + rest =~= text);
    }
}

/// A text in which no bound variable occurs expands to itself: what is not
/// bound stays as it is written.
pub proof fn lemma_expand_unbound(b: Bindings, text: Seq<char>)
    requires
        forall|i: int| 0 <= i < b.len() ==> !occurs_in(pattern((#[trigger] b[i]).0), text),
    ensures
        expand_all(b, text) == text,
    decreases b.len(),
{
    if b.len() > 0 {
        lemma_replace_absent(text, pattern(b[0].0), b[0].1);
        let rest = b.skip(1);
        assert forall|i: int| 0 <= i < rest.len() implies !occurs_in(
            pattern((#[trigger] rest[i]).0),
            text,
        ) by {
            assert(rest[i] == b[i + 1]);
        }
        lemma_expand_unbound(rest, text);
    }
}

/// The last write wins: after a name was bound, it has the value it was bound
/// to.
pub proof fn lemma_lookup_bound(b: Bindings, name: Seq<char>, value: Seq<char>)
    ensures
        lookup(bind(b, name, value), name) == Some(value),
{
    lemma_first_index(b, named(name));
    lemma_first_index(b, shorter_than(name.len()));
    let r = bind(b, name, value);
    if index_of(b, name) < b.len() {
        lemma_first_index_is(r, named(name), index_of(b, name));
    } else {
        lemma_first_index_is(r, named(name), rank(b, name.len()));
    }
}

/// Binding one name leaves the value of every other name as it was.
pub proof fn lemma_lookup_other(b: Bindings, name: Seq<char>, value: Seq<char>, other: Seq<char>)
    requires
        other != name,
    ensures
        lookup(bind(b, name, value), other) == lookup(b, other),
{
    lemma_first_index(b, named(name));
    lemma_first_index(b, named(other));
    lemma_first_index(b, shorter_than(name.len()));
    let r = bind(b, name, value);
    let at = index_of(b, other);
    if index_of(b, name) < b.len() {
        lemma_first_index_is(r, named(other), at);
    } else {
        let p = rank(b, name.len());
        let moved = if at < p {
            at
        } else {
            at + 1
        };
        assert forall|j: int| 0 <= j < moved implies !named(other)(#[trigger] r[j]) by {
            if j < p {
                assert(r[j] == b[j]);
            } else if j > p {
                assert(r[j] == b[j - 1]);
            }
        }
        lemma_first_index_is(r, named(other), moved);
    }
}

/// Of two bound names the longer one is expanded first, so a name is never
/// taken for the start of a longer one.
pub proof fn lemma_longer_name_first(b: Bindings, short: Seq<char>, long: Seq<char>)
    requires
        well_formed(b),
        lookup(b, short) is Some,
        lookup(b, long) is Some,
        short.len() < long.len(),
    ensures
        index_of(b, long) < index_of(b, short),
{
    lemma_first_index(b, named(short));
    lemma_first_index(b, named(long));
    let i = index_of(b, short);
    let j = index_of(b, long);
    if i <= j {
        assert(b[i].0.len() >= b[j].0.len());
    }
}

/// Registering two nodes of one name keeps only the second: the table is
/// the same as if the first had never been registered.
pub proof fn lemma_register_twice(table: Table, first: NodeView, second: NodeView)
    requires
        first.name == second.name,
    ensures
        table.insert(first.name, first).insert(second.name, second) == table.insert(
            second.name,
            second,
        ),
        table_of(seq![first, second]) == table_of(seq![second]),
{
    assert(table.insert(first.name, first).insert(second.name, second) =~= table.insert(
        second.name,
        second,
    ));
    let both = seq![first, second];
    let one = seq![second];
    assert(both.drop_last() =~= seq![first]);
    assert(seq![first].drop_last() =~= Seq::<NodeView>::empty());
    assert(one.drop_last() =~= Seq::<NodeView>::empty());
    reveal_with_fuel(table_of, 3);
    assert(table_of(both) =~= table_of(one));
}

/// `after` continues `before`: the events of `before` stand first in it, and
/// its bindings are well formed if those of `before` are.
pub open spec fn continues(before: State, after: State) -> bool {
    &&& before.log.is_prefix_of(after.log)
    &&& well_formed(before.vars) ==> well_formed(after.vars)
}

/// What continues a continuation continues the start.
pub proof fn lemma_continues_chain(a: State, b: State, c: State)
    requires
        continues(a, b),
        continues(b, c),
    ensures
        continues(a, c),
{
}

/// Recording an event continues the state.
pub proof fn lemma_record_continues(st: State, event: EventView)
    ensures
        continues(st, record(st, event)),
{
}

/// Binding a variable continues the state.
pub proof fn lemma_assign_continues(st: State, name: Seq<char>, value: Seq<char>)
    ensures
        continues(st, assign(st, name, value)),
{
    if well_formed(st.vars) {
        lemma_bind_well_formed(st.vars, name, value);
    }
}

/// Binding parameters continues the state.
pub proof fn lemma_params_continue(params: Seq<Seq<char>>, args: Seq<Seq<char>>, st: State)
    ensures
        continues(st, bind_params(params, args, st)),
    decreases params.len(),
{
    if params.len() == 0 || args.len() == 0 {
    } else {
        let bound = assign(st, params[0], args[0]);
        let noted = record(bound, EventView::Param(params[0], args[0]));
        lemma_assign_continues(st, params[0], args[0]);
        lemma_record_continues(bound, EventView::Param(params[0], args[0]));
        lemma_params_continue(params.skip(1), args.skip(1), noted);
        lemma_continues_chain(st, bound, noted);
        lemma_continues_chain(st, noted, bind_params(params, args, st));
    }
}

/// Running a block continues the state.
pub proof fn lemma_block_continues(stmts: Seq<StmtView>, st: State, table: Table, depth: nat)
    ensures
        continues(st, run_block(stmts, st, table, depth)),
    decreases 2 * depth + 1, stmts, 0nat, 0nat,
{
    if stmts.len() > 0 {
        let mid = run_stmt(stmts[0], st, table, depth);
        lemma_stmt_continues(stmts[0], st, table, depth);
        lemma_block_continues(stmts.skip(1), mid, table, depth);
        lemma_continues_chain(st, mid, run_block(stmts, st, table, depth));
    }
}

/// Running a statement continues the state.
pub proof fn lemma_stmt_continues(stmt: StmtView, st: State, table: Table, depth: nat)
    ensures
        continues(st, run_stmt(stmt, st, table, depth)),
    decreases 2 * depth + 1, stmt, 1nat, 0nat,
{
    match stmt {
        StmtView::Command(_) => {},
        StmtView::Exec(cmd) => {},
        StmtView::Assignment(name, value) => {
            let expanded = expand_all(st.vars, value);
            let bound = assign(st, name, expanded);
            lemma_assign_continues(st, name, expanded);
            lemma_record_continues(bound, EventView::Assign(name, expanded));
            lemma_continues_chain(st, bound, run_stmt(stmt, st, table, depth));
        },
        StmtView::Depends(deps) => {
            lemma_deps_continue(deps, st, table, depth);
        },
        StmtView::If(cond, then_block, else_block) => {
            lemma_block_continues(then_block, st, table, depth);
            match else_block {
                Some(stmts) => {
                    lemma_block_continues(stmts, st, table, depth);
                },
                None => {},
            }
        },
        StmtView::For(var, items, body) => {
            lemma_for_continues(var, items, body, st, table, depth);
        },
    }
}

/// Running dependencies continues the state.
pub proof fn lemma_deps_continue(deps: Seq<Seq<char>>, st: State, table: Table, depth: nat)
    ensures
        continues(st, run_deps(deps, st, table, depth)),
    decreases 2 * depth, deps, 0nat, 0nat,
{
    if deps.len() > 0 {
        let mid = run_dep(deps[0], st, table, depth);
        if table.dom().contains(deps[0]) && depth > 0 {
            let noted = record(st, EventView::Depends(deps[0]));
            lemma_node_continues(
                table[deps[0]],
                noted,
                table,
                Seq::empty(),
                None,
                (depth - 1) as nat,
            );
            lemma_continues_chain(st, noted, mid);
        }
        lemma_deps_continue(deps.skip(1), mid, table, depth);
        lemma_continues_chain(st, mid, run_deps(deps, st, table, depth));
    }
}

/// Running a loop continues the state.
pub proof fn lemma_for_continues(
    var: Seq<char>,
    items: Seq<Seq<char>>,
    body: Seq<StmtView>,
    st: State,
    table: Table,
    depth: nat,
)
    ensures
        continues(st, run_for(var, items, body, st, table, depth)),
    decreases 2 * depth + 1, body, 1nat, items.len(),
{
    if items.len() > 0 {
        let bound = assign(st, var, expand_all(st.vars, items[0]));
        let mid = run_block(body, bound, table, depth);
        lemma_assign_continues(st, var, expand_all(st.vars, items[0]));
        lemma_block_continues(body, bound, table, depth);
        lemma_for_continues(var, items.skip(1), body, mid, table, depth);
        lemma_continues_chain(st, bound, mid);
        lemma_continues_chain(st, mid, run_for(var, items, body, st, table, depth));
    }
}

/// Running the sub-commands continues the state.
pub proof fn lemma_children_continue(stmts: Seq<StmtView>, st: State, table: Table, depth: nat)
    ensures
        continues(st, run_children(stmts, st, table, depth)),
    decreases 2 * depth + 1, stmts, 0nat, 0nat,
{
    if stmts.len() > 0 {
        let mid = match stmts[0] {
            StmtView::Command(child) => run_node(child, st, table, Seq::empty(), None, depth),
            _ => st,
        };
        match stmts[0] {
            StmtView::Command(child) => {
                lemma_node_continues(child, st, table, Seq::empty(), None, depth);
            },
            _ => {},
        }
        lemma_children_continue(stmts.skip(1), mid, table, depth);
        lemma_continues_chain(st, mid, run_children(stmts, st, table, depth));
    }
}

/// Running a node continues the state.
pub proof fn lemma_node_continues(
    node: NodeView,
    st: State,
    table: Table,
    args: Seq<Seq<char>>,
    subpath: Option<Seq<Seq<char>>>,
    depth: nat,
)
    ensures
        continues(st, run_node(node, st, table, args, subpath, depth)),
    decreases 2 * depth + 1, node, 0nat, 0nat,
{
    let bound = bind_params(node.params, args, st);
    let own = run_block(node.body, bound, table, depth);
    let done = run_node(node, st, table, args, subpath, depth);
    lemma_params_continue(node.params, args, st);
    lemma_block_continues(node.body, bound, table, depth);
    lemma_continues_chain(st, bound, own);
    match subpath {
        None => {
            lemma_children_continue(node.body, own, table, depth);
        },
        Some(path) => {
            if path.len() > 0 {
                let i = first_index(node.body, declares(path[0]));
                if 0 <= i < node.body.len() {
                    match node.body[i] {
                        StmtView::Command(child) => {
                            lemma_node_continues(
                                child,
                                own,
                                table,
                                Seq::empty(),
                                Some(path.skip(1)),
                                depth,
                            );
                        },
                        _ => {},
                    }
                }
            }
        },
    }
    lemma_continues_chain(st, own, done);
}

/// Dependencies share one state: the second starts from what the first has
/// left, bindings and events alike.
pub proof fn lemma_dependencies_share_state(
    first: Seq<char>,
    second: Seq<char>,
    st: State,
    table: Table,
    depth: nat,
)
    ensures
        run_deps(seq![first, second], st, table, depth) == run_dep(
            second,
            run_dep(first, st, table, depth),
            table,
            depth,
        ),
{
    let both = seq![first, second];
    assert(both.skip(1) =~= seq![second]);
    assert(seq![second].skip(1) =~= Seq::<Seq<char>>::empty());
    reveal_with_fuel(run_deps, 3);
}

/// What a node does on its own: it binds its parameters and runs its
/// statements.
pub open spec fn run_own(
    node: NodeView,
    st: State,
    table: Table,
    args: Seq<Seq<char>>,
    depth: nat,
) -> State {
    run_block(node.body, bind_params(node.params, args, st), table, depth)
}

/// With an empty path a node does what it does on its own and no more.
/// With any other path, or with none, it does the same first, once: what
/// follows starts from the state that this leaves, and the events of
/// the node's own statements stand before all later ones.
pub proof fn lemma_own_statements_once(
    node: NodeView,
    st: State,
    table: Table,
    args: Seq<Seq<char>>,
    subpath: Option<Seq<Seq<char>>>,
    depth: nat,
)
    ensures
        run_node(node, st, table, args, Some(Seq::empty()), depth) == run_own(
            node,
            st,
            table,
            args,
            depth,
        ),
        run_own(node, st, table, args, depth).log.is_prefix_of(
            run_node(node, st, table, args, subpath, depth).log,
        ),
{
    let own = run_own(node, st, table, args, depth);
    match subpath {
        None => {
            lemma_children_continue(node.body, own, table, depth);
        },
        Some(path) => {
            if path.len() > 0 {
                let i = first_index(node.body, declares(path[0]));
                if 0 <= i < node.body.len() {
                    match node.body[i] {
                        StmtView::Command(child) => {
                            lemma_node_continues(
                                child,
                                own,
                                table,
                                Seq::empty(),
                                Some(path.skip(1)),
                                depth,
                            );
                        },
                        _ => {},
                    }
                }
            }
        },
    }
}

/// A path whose first name no sub-command carries ends the run of the node
/// after its own statements: the miss is recorded and nothing else happens.
pub proof fn lemma_missing_subcommand(
    node: NodeView,
    st: State,
    table: Table,
    args: Seq<Seq<char>>,
    path: Seq<Seq<char>>,
    depth: nat,
)
    requires
        path.len() > 0,
        forall|i: int| 0 <= i < node.body.len() ==> !declares(path[0])(#[trigger] node.body[i]),
    ensures
        run_node(node, st, table, args, Some(path), depth) == record(
            run_own(node, st, table, args, depth),
            EventView::SubcommandNotFound(path[0], node.name),
        ),
{
    lemma_first_index_is(node.body, declares(path[0]), node.body.len() as int);
}

/// A path leads into the first sub-command that carries its first name: the
/// node does what it does on its own, then the sub-command runs with the rest
/// of the path and without arguments.
pub proof fn lemma_descends_into_first(
    node: NodeView,
    st: State,
    table: Table,
    args: Seq<Seq<char>>,
    path: Seq<Seq<char>>,
    depth: nat,
    i: int,
    child: NodeView,
)
    requires
        path.len() > 0,
        0 <= i < node.body.len(),
        node.body[i] == StmtView::Command(child),
        child.name == path[0],
        forall|j: int| 0 <= j < i ==> !declares(path[0])(#[trigger] node.body[j]),
    ensures
        run_node(node, st, table, args, Some(path), depth) == run_node(
            child,
            run_own(node, st, table, args, depth),
            table,
            Seq::empty(),
            Some(path.skip(1)),
            depth,
        ),
{
    lemma_first_index_is(node.body, declares(path[0]), i);
}

/// Without a path a node does what it does on its own and then runs its
/// sub-commands in the order in which it declares them.
pub proof fn lemma_bare_run_sweeps(
    node: NodeView,
    st: State,
    table: Table,
    args: Seq<Seq<char>>,
    depth: nat,
)
    ensures
        run_node(node, st, table, args, None, depth) == run_children(
            node.body,
            run_own(node, st, table, args, depth),
            table,
            depth,
        ),
{
}

} // verus!
