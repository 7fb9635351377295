//! Dependencies that do not run in a circle are never cut short.
//!
//! A run lets dependencies nest only so deep. This module shows that a
//! depth of as many levels as there are nodes is enough for every script
//! whose nodes can be ranked so that each depends only on nodes of lower
//! rank: such a run records no `DepthLimit`.

use vstd::prelude::*;
use vstd::set_lib::lemma_len_subset;
use crate::ast::NodeView;
use crate::ast::StmtView;
use crate::env::expand_all;
use crate::event::EventView;
use crate::registry::table_of;
use crate::semantics::State;
use crate::semantics::Table;
use crate::semantics::assign;
use crate::semantics::bind_params;
use crate::semantics::declares;
use crate::semantics::record;
use crate::semantics::run_block;
use crate::semantics::run_children;
use crate::semantics::run_dep;
use crate::semantics::run_deps;
use crate::semantics::run_for;
use crate::semantics::run_node;
use crate::semantics::run_stmt;
use crate::seqs::first_index;

verus! {

/// Whether some statement of `stmts`, however deep inside, names `name` as
/// a dependency.
pub open spec fn mentions(stmts: Seq<StmtView>, name: Seq<char>) -> bool
    decreases stmts, 0nat,
{
    stmts.len() > 0 && (stmt_mentions(stmts[0], name) || mentions(stmts.skip(1), name))
}

/// Whether `stmt`, or a statement inside it, names `name` as a dependency.
pub open spec fn stmt_mentions(stmt: StmtView, name: Seq<char>) -> bool
    decreases stmt, 1nat,
{
    match stmt {
        StmtView::Command(node) => mentions(node.body, name),
        StmtView::Depends(deps) => deps.contains(name),
        StmtView::If(_, then_block, else_block) => mentions(then_block, name) || match else_block {
            Some(stmts) => mentions(stmts, name),
            None => false,
        },
        StmtView::For(_, _, body) => mentions(body, name),
        _ => false,
    }
}

/// `rank` orders the registered nodes so that each depends only on nodes of
/// lower rank. Where there is such an order, no chain of dependencies comes
/// back to where it began.
pub open spec fn ranked(table: Table, rank: spec_fn(Seq<char>) -> nat) -> bool {
    forall|a: Seq<char>, b: Seq<char>|
        table.dom().contains(a) && table.dom().contains(b) && #[trigger] mentions(table[a].body, b)
            ==> rank(b) < rank(a)
}

/// Every registered node that `stmts` depend on has a rank below `depth`.
pub open spec fn fits(
    stmts: Seq<StmtView>,
    table: Table,
    rank: spec_fn(Seq<char>) -> nat,
    depth: nat,
) -> bool {
    forall|b: Seq<char>| table.dom().contains(b) && #[trigger] mentions(stmts, b) ==> rank(b) < depth
}

/// Every registered node among `deps` has a rank below `depth`.
pub open spec fn deps_fit(
    deps: Seq<Seq<char>>,
    table: Table,
    rank: spec_fn(Seq<char>) -> nat,
    depth: nat,
) -> bool {
    forall|k: int|
        0 <= k < deps.len() && table.dom().contains(#[trigger] deps[k]) ==> rank(deps[k]) < depth
}

/// No dependency was cut: the log holds no `DepthLimit`.
pub open spec fn uncut(log: Seq<EventView>) -> bool {
    forall|i: int| 0 <= i < log.len() ==> !((#[trigger] log[i]) is DepthLimit)
}

/// What a statement at index `i` mentions, the block mentions.
proof fn lemma_mentions_at(stmts: Seq<StmtView>, i: int, name: Seq<char>)
    requires
        0 <= i < stmts.len(),
        stmt_mentions(stmts[i], name),
    ensures
        mentions(stmts, name),
    decreases i,
{
    if i > 0 {
        lemma_mentions_at(stmts.skip(1), i - 1, name);
    }
}

/// A block that fits has a first statement whose blocks fit, and a rest that
/// fits.
proof fn lemma_fits_rest(
    stmts: Seq<StmtView>,
    table: Table,
    rank: spec_fn(Seq<char>) -> nat,
    depth: nat,
)
    requires
        stmts.len() > 0,
        fits(stmts, table, rank, depth),
    ensures
        fits(stmts.skip(1), table, rank, depth),
        fits(seq![stmts[0]], table, rank, depth),
{
    assert forall|b: Seq<char>|
        table.dom().contains(b) && #[trigger] mentions(stmts.skip(1), b) implies rank(b)
        < depth by {
        assert(mentions(stmts, b));
    }
    let one = seq![stmts[0]];
    assert forall|b: Seq<char>| table.dom().contains(b) && #[trigger] mentions(one, b) implies rank(
        b,
    ) < depth by {
        assert(one.skip(1) =~= Seq::<StmtView>::empty());
        assert(!mentions(one.skip(1), b));
        assert(stmt_mentions(stmts[0], b));
        assert(mentions(stmts, b));
    }
}

/// Recording an event that is no `DepthLimit` cuts nothing.
proof fn lemma_record_uncut(st: State, event: EventView)
    requires
        uncut(st.log),
        !(event is DepthLimit),
    ensures
        uncut(record(st, event).log),
{
}

/// Binding parameters cuts nothing.
proof fn lemma_params_uncut(params: Seq<Seq<char>>, args: Seq<Seq<char>>, st: State)
    requires
        uncut(st.log),
    ensures
        uncut(bind_params(params, args, st).log),
    decreases params.len(),
{
    if params.len() == 0 || args.len() == 0 {
    } else {
        let bound = assign(st, params[0], args[0]);
        let noted = record(bound, EventView::Param(params[0], args[0]));
        lemma_record_uncut(bound, EventView::Param(params[0], args[0]));
        lemma_params_uncut(params.skip(1), args.skip(1), noted);
    }
}

/// A block that fits runs without a cut.
proof fn lemma_block_uncut(
    stmts: Seq<StmtView>,
    st: State,
    table: Table,
    rank: spec_fn(Seq<char>) -> nat,
    depth: nat,
)
    requires
        ranked(table, rank),
        fits(stmts, table, rank, depth),
        uncut(st.log),
    ensures
        uncut(run_block(stmts, st, table, depth).log),
    decreases 2 * depth + 1, stmts, 0nat, 0nat,
{
    if stmts.len() > 0 {
        lemma_fits_rest(stmts, table, rank, depth);
        lemma_stmt_uncut(stmts[0], st, table, rank, depth);
        lemma_block_uncut(stmts.skip(1), run_stmt(stmts[0], st, table, depth), table, rank, depth);
    }
}

/// A statement that fits runs without a cut.
proof fn lemma_stmt_uncut(
    stmt: StmtView,
    st: State,
    table: Table,
    rank: spec_fn(Seq<char>) -> nat,
    depth: nat,
)
    requires
        ranked(table, rank),
        fits(seq![stmt], table, rank, depth),
        uncut(st.log),
    ensures
        uncut(run_stmt(stmt, st, table, depth).log),
    decreases 2 * depth + 1, stmt, 1nat, 0nat,
{
    let one = seq![stmt];
    assert(one.skip(1) =~= Seq::<StmtView>::empty());
    assert(one[0] == stmt);
    assert forall|b: Seq<char>| table.dom().contains(b) && stmt_mentions(stmt, b) implies rank(b)
        < depth by {
        assert(mentions(one, b));
    }
    match stmt {
        StmtView::Command(_) => {},
        StmtView::Exec(cmd) => {},
        StmtView::Assignment(name, value) => {},
        StmtView::Depends(deps) => {
            assert forall|k: int|
                0 <= k < deps.len() && table.dom().contains(#[trigger] deps[k]) implies rank(
                deps[k],
            ) < depth by {
                assert(deps.contains(deps[k]));
                assert(stmt_mentions(stmt, deps[k]));
            }
            lemma_deps_uncut(deps, st, table, rank, depth);
        },
        StmtView::If(cond, then_block, else_block) => {
            assert forall|b: Seq<char>|
                table.dom().contains(b) && #[trigger] mentions(then_block, b) implies rank(b)
                < depth by {
                assert(stmt_mentions(stmt, b));
            }
            lemma_block_uncut(then_block, st, table, rank, depth);
            match else_block {
                Some(stmts) => {
                    assert forall|b: Seq<char>|
                        table.dom().contains(b) && #[trigger] mentions(stmts, b) implies rank(b)
                        < depth by {
                        assert(stmt_mentions(stmt, b));
                    }
                    lemma_block_uncut(stmts, st, table, rank, depth);
                },
                None => {},
            }
        },
        StmtView::For(var, items, body) => {
            assert forall|b: Seq<char>|
                table.dom().contains(b) && #[trigger] mentions(body, b) implies rank(b)
                < depth by {
                assert(stmt_mentions(stmt, b));
            }
            lemma_for_uncut(var, items, body, st, table, rank, depth);
        },
    }
}

/// Dependencies that fit run without a cut.
proof fn lemma_deps_uncut(
    deps: Seq<Seq<char>>,
    st: State,
    table: Table,
    rank: spec_fn(Seq<char>) -> nat,
    depth: nat,
)
    requires
        ranked(table, rank),
        deps_fit(deps, table, rank, depth),
        uncut(st.log),
    ensures
        uncut(run_deps(deps, st, table, depth).log),
    decreases 2 * depth, deps, 0nat, 0nat,
{
    if deps.len() > 0 {
        let dep = deps[0];
        let mid = run_dep(dep, st, table, depth);
        if table.dom().contains(dep) {
            assert(rank(dep) < depth);
            let noted = record(st, EventView::Depends(dep));
            lemma_record_uncut(st, EventView::Depends(dep));
            let below = (depth - 1) as nat;
            assert forall|b: Seq<char>|
                table.dom().contains(b) && #[trigger] mentions(table[dep].body, b) implies rank(b)
                < below by {
                assert(rank(b) < rank(dep));
            }
            lemma_node_uncut(table[dep], noted, table, rank, Seq::empty(), None, below);
        }
        let rest = deps.skip(1);
        assert forall|k: int|
            0 <= k < rest.len() && table.dom().contains(#[trigger] rest[k]) implies rank(rest[k])
            < depth by {
            assert(rest[k] == deps[k + 1]);
        }
        lemma_deps_uncut(rest, mid, table, rank, depth);
    }
}

/// A loop whose body fits runs without a cut.
proof fn lemma_for_uncut(
    var: Seq<char>,
    items: Seq<Seq<char>>,
    body: Seq<StmtView>,
    st: State,
    table: Table,
    rank: spec_fn(Seq<char>) -> nat,
    depth: nat,
)
    requires
        ranked(table, rank),
        fits(body, table, rank, depth),
        uncut(st.log),
    ensures
        uncut(run_for(var, items, body, st, table, depth).log),
    decreases 2 * depth + 1, body, 1nat, items.len(),
{
    if items.len() > 0 {
        let bound = assign(st, var, expand_all(st.vars, items[0]));
        lemma_block_uncut(body, bound, table, rank, depth);
        lemma_for_uncut(
            var,
            items.skip(1),
            body,
            run_block(body, bound, table, depth),
            table,
            rank,
            depth,
        );
    }
}

/// The sub-commands of a block that fits run without a cut.
proof fn lemma_children_uncut(
    stmts: Seq<StmtView>,
    st: State,
    table: Table,
    rank: spec_fn(Seq<char>) -> nat,
    depth: nat,
)
    requires
        ranked(table, rank),
        fits(stmts, table, rank, depth),
        uncut(st.log),
    ensures
        uncut(run_children(stmts, st, table, depth).log),
    decreases 2 * depth + 1, stmts, 0nat, 0nat,
{
    if stmts.len() > 0 {
        lemma_fits_rest(stmts, table, rank, depth);
        let mid = match stmts[0] {
            StmtView::Command(child) => run_node(child, st, table, Seq::empty(), None, depth),
            _ => st,
        };
        match stmts[0] {
            StmtView::Command(child) => {
                assert forall|b: Seq<char>|
                    table.dom().contains(b) && #[trigger] mentions(child.body, b) implies rank(b)
                    < depth by {
                    assert(stmt_mentions(stmts[0], b));
                    assert(mentions(stmts, b));
                }
                lemma_node_uncut(child, st, table, rank, Seq::empty(), None, depth);
            },
            _ => {},
        }
        lemma_children_uncut(stmts.skip(1), mid, table, rank, depth);
    }
}

/// A node whose body fits runs without a cut, whatever the path.
proof fn lemma_node_uncut(
    node: NodeView,
    st: State,
    table: Table,
    rank: spec_fn(Seq<char>) -> nat,
    args: Seq<Seq<char>>,
    subpath: Option<Seq<Seq<char>>>,
    depth: nat,
)
    requires
        ranked(table, rank),
        fits(node.body, table, rank, depth),
        uncut(st.log),
    ensures
        uncut(run_node(node, st, table, args, subpath, depth).log),
    decreases 2 * depth + 1, node, 0nat, 0nat,
{
    let bound = bind_params(node.params, args, st);
    let own = run_block(node.body, bound, table, depth);
    lemma_params_uncut(node.params, args, st);
    lemma_block_uncut(node.body, bound, table, rank, depth);
    match subpath {
        None => {
            lemma_children_uncut(node.body, own, table, rank, depth);
        },
        Some(path) => {
            if path.len() > 0 {
                let i = first_index(node.body, declares(path[0]));
                if 0 <= i < node.body.len() {
                    match node.body[i] {
                        StmtView::Command(child) => {
                            assert forall|b: Seq<char>|
                                table.dom().contains(b) && #[trigger] mentions(
                                    child.body,
                                    b,
                                ) implies rank(b) < depth by {
                                assert(stmt_mentions(node.body[i], b));
                                lemma_mentions_at(node.body, i, b);
                            }
                            lemma_node_uncut(
                                child,
                                own,
                                table,
                                rank,
                                Seq::empty(),
                                Some(path.skip(1)),
                                depth,
                            );
                        },
                        _ => {},
                    }
                } else {
                    lemma_record_uncut(own, EventView::SubcommandNotFound(path[0], node.name));
                }
            }
        },
    }
}

/// The registered names that `rank` puts below `name`.
pub open spec fn lower(table: Table, rank: spec_fn(Seq<char>) -> nat, name: Seq<char>) -> Set<
    Seq<char>,
> {
    table.dom().filter(|b: Seq<char>| rank(b) < rank(name))
}

/// The ranking that counts, for each name, the registered names below it.
pub open spec fn tight(table: Table, rank: spec_fn(Seq<char>) -> nat) -> spec_fn(Seq<char>) -> nat {
    |name: Seq<char>| lower(table, rank, name).len()
}

/// Where the nodes can be ranked at all, counting the names below each ranks
/// them too, and with ranks below the number of registered names.
proof fn lemma_tight_ranking(table: Table, rank: spec_fn(Seq<char>) -> nat)
    requires
        table.dom().finite(),
        ranked(table, rank),
    ensures
        ranked(table, tight(table, rank)),
        forall|a: Seq<char>| #[trigger]
            table.dom().contains(a) ==> tight(table, rank)(a) < table.dom().len(),
{
    let count = tight(table, rank);
    assert forall|a: Seq<char>| #[trigger] table.dom().contains(a) implies count(a)
        < table.dom().len() by {
        let under = lower(table, rank, a);
        assert(under.subset_of(table.dom().remove(a)));
        lemma_len_subset(under, table.dom().remove(a));
    }
    assert forall|a: Seq<char>, b: Seq<char>|
        table.dom().contains(a) && table.dom().contains(b) && #[trigger] mentions(
            table[a].body,
            b,
        ) implies count(b) < count(a) by {
        assert(rank(b) < rank(a));
        let under_a = lower(table, rank, a);
        let under_b = lower(table, rank, b);
        lemma_len_subset(under_a, table.dom());
        assert(under_a.contains(b));
        assert(under_b.subset_of(under_a.remove(b)));
        lemma_len_subset(under_b, under_a.remove(b));
    }
}

/// A table holds no more names than nodes were declared.
proof fn lemma_table_size(nodes: Seq<NodeView>)
    ensures
        table_of(nodes).dom().finite(),
        table_of(nodes).dom().len() <= nodes.len(),
    decreases nodes.len(),
{
    if nodes.len() > 0 {
        lemma_table_size(nodes.drop_last());
    }
}

/// With as many levels as there are nodes, no dependency is cut in a script
/// whose nodes can be ranked: a registered node, run from a state in which
/// nothing was cut, records no `DepthLimit`, whatever its arguments and path.
pub proof fn lemma_ranked_run_is_whole(
    nodes: Seq<NodeView>,
    rank: spec_fn(Seq<char>) -> nat,
    name: Seq<char>,
    st: State,
    args: Seq<Seq<char>>,
    subpath: Option<Seq<Seq<char>>>,
)
    requires
        ranked(table_of(nodes), rank),
        table_of(nodes).dom().contains(name),
        uncut(st.log),
    ensures
        uncut(run_node(table_of(nodes)[name], st, table_of(nodes), args, subpath, nodes.len()).log),
{
    let table = table_of(nodes);
    let count = tight(table, rank);
    lemma_table_size(nodes);
    lemma_tight_ranking(table, rank);
    assert forall|b: Seq<char>|
        table.dom().contains(b) && #[trigger] mentions(table[name].body, b) implies count(b)
        < nodes.len() by {}
    lemma_node_uncut(table[name], st, table, count, args, subpath, nodes.len());
}

} // verus!
