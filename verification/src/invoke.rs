//! From command-line tokens to a run: which node, which arguments, which
//! path below the node.

use vstd::prelude::*;
use vstd::slice::slice_subrange;
use crate::ast::CommandNode;
use crate::ast::NodeView;
use crate::ast::nodes_view;
use crate::ast::texts;
use crate::env::Environment;
use crate::env::well_formed;
use crate::event::Event;
use crate::exec::execute;
use crate::exec::find_node;
use crate::exec::state_of;
use crate::registry::Registry;
use crate::registry::lemma_table_last;
use crate::registry::table_of;
use crate::semantics::run_node;
use crate::text::starts_with;
use crate::text::strip_prefixes;
use crate::text::trim_start_matches;

verus! {

/// Why an invocation ran nothing.
#[derive(Debug, Clone, PartialEq, Eq)]
pub enum InvocationError {
    /// No token names a command: there are no tokens, or all are flags.
    NoCommand,
    /// The first name of the path is not the name of a top-level node.
    UnknownCommand(String),
}

/// The tokens of a command line, told apart.
#[derive(Debug, Clone, PartialEq, Eq)]
pub struct Invocation {
    /// The names: the root node, then the way down.
    pub path: Vec<String>,
    /// The values of the flags, without their dashes, in order.
    pub args: Vec<String>,
}

/// The two dashes that mark a flag.
pub open spec fn dashes() -> Seq<char> {
    seq!['-', '-']
}

/// A flag is a token that starts with two dashes.
pub open spec fn is_flag(token: Seq<char>) -> bool {
    dashes().is_prefix_of(token)
}

/// The tokens that are no flags, in order.
pub open spec fn path_of(tokens: Seq<Seq<char>>) -> Seq<Seq<char>>
    decreases tokens.len(),
{
    if tokens.len() == 0 {
        Seq::empty()
    } else if is_flag(tokens.last()) {
        path_of(tokens.drop_last())
    } else {
        path_of(tokens.drop_last()).push(tokens.last())
    }
}

/// The flags in order, each without its leading dashes.
pub open spec fn args_of(tokens: Seq<Seq<char>>) -> Seq<Seq<char>>
    decreases tokens.len(),
{
    if tokens.len() == 0 {
        Seq::empty()
    } else if is_flag(tokens.last()) {
        args_of(tokens.drop_last()).push(strip_prefixes(tokens.last(), dashes()))
    } else {
        args_of(tokens.drop_last())
    }
}

/// What the tokens ask for, given the top-level nodes.
pub enum Resolution {
    /// No token names a command.
    NoCommand,
    /// The first name is not the name of a top-level node.
    UnknownCommand(Seq<char>),
    /// Run the node `root` with `args`. A path of one name runs the node with
    /// its whole subtree; a longer one leads down by its rest.
    Run { root: NodeView, args: Seq<Seq<char>>, subpath: Option<Seq<Seq<char>>> },
}

/// Resolves the tokens: the first name picks the node that is registered
/// under it, which is the last one declared; the flags are its arguments;
/// the other names are the path.
pub open spec fn resolve(nodes: Seq<NodeView>, tokens: Seq<Seq<char>>) -> Resolution {
    let path = path_of(tokens);
    if path.len() == 0 {
        Resolution::NoCommand
    } else if !table_of(nodes).dom().contains(path[0]) {
        Resolution::UnknownCommand(path[0])
    } else {
        Resolution::Run {
            root: table_of(nodes)[path[0]],
            args: args_of(tokens),
            subpath: if path.len() == 1 {
                None
            } else {
                Some(path.skip(1))
            },
        }
    }
}

/// Tells the names from the flags.
pub fn split_tokens(tokens: &[String]) -> (r: Invocation)
    ensures
        texts(r.path@) == path_of(texts(tokens@)),
        texts(r.args@) == args_of(texts(tokens@)),
{
    let ghost all = texts(tokens@);
    let mut path: Vec<String> = Vec::new();
    let mut args: Vec<String> = Vec::new();
    let n = tokens.len();
    let mut i: usize = 0;
    assert(all.take(0) =~= Seq::<Seq<char>>::empty());
    assert(texts(path@) =~= Seq::<Seq<char>>::empty());
    assert(texts(args@) =~= Seq::<Seq<char>>::empty());
    while i < n
        invariant
            n == tokens@.len(),
            all == texts(tokens@),
            i <= n,
            texts(path@) == path_of(all.take(i as int)),
            texts(args@) == args_of(all.take(i as int)),
        decreases n - i,
    {
        let ghost upto = all.take(i as int + 1);
        let ghost old_path = path@;
        let ghost old_args = args@;
        assert(upto.drop_last() =~= all.take(i as int));
        assert(upto.last() == tokens@[i as int]@);
        proof {
            reveal_strlit("--");
            assert("--"@ =~= dashes());
        }
        let token = tokens[i].as_str();
        if starts_with(token, "--") {
            args.push(String::from_str(trim_start_matches(token, "--")));
            assert(texts(args@) =~= texts(old_args).push(args@.last()@));
        } else {
            path.push(tokens[i].clone());
            assert(texts(path@) =~= texts(old_path).push(path@.last()@));
        }
        i += 1;
    }
    assert(all.take(n as int) =~= all);
    Invocation { path, args }
}

/// Runs what the tokens ask for. The tokens are resolved against `nodes`;
/// where they name a node, it runs against `env` with all of `nodes`
/// registered for its dependencies, and `out` receives what the run asks of
/// the world. Where they name none, nothing runs and nothing changes.
///
/// Dependencies may nest as deep as there are nodes. That cuts nothing in
/// a script whose nodes can be ranked so that each depends only on nodes of
/// lower rank: see `acyclic::lemma_ranked_run_is_whole`.
pub fn invoke(
    nodes: &[CommandNode],
    tokens: &[String],
    env: &mut Environment,
    out: &mut Vec<Event>,
) -> (r: Result<(), InvocationError>)
    ensures
        match resolve(nodes_view(nodes@), texts(tokens@)) {
            Resolution::NoCommand => {
                &&& r is Err
                &&& r->Err_0 is NoCommand
                &&& final(env)@ == old(env)@
                &&& final(out)@ == old(out)@
            },
            Resolution::UnknownCommand(name) => {
                &&& r is Err
                &&& r->Err_0 is UnknownCommand
                &&& r->Err_0->UnknownCommand_0@ == name
                &&& final(env)@ == old(env)@
                &&& final(out)@ == old(out)@
            },
            Resolution::Run { root, args, subpath } => {
                &&& r is Ok
                &&& state_of(final(env)@, final(out)@) == run_node(
                    root,
                    state_of(old(env)@, old(out)@),
                    table_of(nodes_view(nodes@)),
                    args,
                    subpath,
                    nodes@.len(),
                )
            },
        },
        well_formed(final(env)@),
{
    proof {
        use_type_invariant(&*env);
    }
    let invocation = split_tokens(tokens);
    if invocation.path.len() == 0 {
        return Err(InvocationError::NoCommand);
    }
    let all_nodes = Registry::from_nodes(nodes);
    let depth = nodes.len();
    let root_name = &invocation.path[0];
    proof {
        lemma_table_last(nodes_view(nodes@), root_name@);
    }
    match find_node(nodes, root_name.as_str()) {
        Some(root_node) => {
            let mut path: Vec<String> = Vec::new();
            if invocation.path.len() == 1 {
                execute(
                    root_node,
                    &mut path,
                    env,
                    &all_nodes,
                    invocation.args.as_slice(),
                    None,
                    out,
                    depth,
                );
            } else {
                let subpath = slice_subrange(
                    invocation.path.as_slice(),
                    1,
                    invocation.path.len(),
                );
                assert(texts(subpath@) =~= texts(invocation.path@).skip(1));
                execute(
                    root_node,
                    &mut path,
                    env,
                    &all_nodes,
                    invocation.args.as_slice(),
                    Some(subpath),
                    out,
                    depth,
                );
            }
            Ok(())
        },
        None => Err(InvocationError::UnknownCommand(root_name.clone())),
    }
}

} // verus!
