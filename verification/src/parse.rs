//! From the parse tree of a script to its syntax tree.
//!
//! The grammar produces a tree of pairs: each pair carries the rule that
//! matched, the text it matched, and the pairs matched inside it. This module
//! reads that tree. A tree that lacks a part which a rule must have gives
//! no syntax tree.

use vstd::prelude::*;
use crate::ast::CommandNode;
use crate::ast::CondView;
use crate::ast::Condition;
use crate::ast::NodeView;
use crate::ast::Statement;
use crate::ast::StmtView;
use crate::ast::block_view;
use crate::ast::nodes_view;
use crate::ast::texts;
use crate::text::strip_leading;
use crate::text::strip_trailing;
use crate::text::trim_matches;

verus! {

/// The rules of the grammar that the reader tells apart.
#[derive(Debug, Clone, Copy, PartialEq, Eq, Structural)]
pub enum Rule {
    Program,
    Node,
    DocComment,
    ParamList,
    Exec,
    Assignment,
    Depends,
    IfStmt,
    ForStmt,
    StringLit,
    Variable,
    /// Every other rule: names, operators, blocks, lists.
    Other,
}

/// One match of a rule: the rule, the matched text, and the matches inside.
#[derive(Debug)]
pub struct Pair {
    pub rule: Rule,
    pub text: String,
    pub inner: Vec<Pair>,
}

/// The value that a pair stands for: a string literal without its quotes,
/// anything else as it is written.
pub open spec fn value_of(p: Pair) -> Seq<char> {
    if p.rule == Rule::StringLit {
        strip_trailing(strip_leading(p.text@, '"'), '"')
    } else {
        p.text@
    }
}

/// The texts of the pairs.
pub open spec fn names_of(ps: Seq<Pair>) -> Seq<Seq<char>> {
    Seq::new(ps.len(), |i: int| ps[i].text@)
}

/// The values of the pairs.
pub open spec fn values_of(ps: Seq<Pair>) -> Seq<Seq<char>> {
    Seq::new(ps.len(), |i: int| value_of(ps[i]))
}

/// A condition has a left operand, an operator and a right operand.
pub open spec fn cond_shaped(p: Pair) -> bool {
    p.inner@.len() >= 3
}

/// The condition that a well-shaped pair stands for.
pub open spec fn cond_of(p: Pair) -> CondView {
    CondView {
        left: value_of(p.inner@[0]),
        op: p.inner@[1].text@,
        right: value_of(p.inner@[2]),
    }
}

/// Where the name of a node stands: behind the doc comment, if there is one.
pub open spec fn name_at(p: Pair) -> int {
    if p.inner@.len() > 0 && p.inner@[0].rule == Rule::DocComment {
        1
    } else {
        0
    }
}

/// Whether a parameter list follows the name of a node.
pub open spec fn has_params(p: Pair) -> bool {
    name_at(p) + 1 < p.inner@.len() && p.inner@[name_at(p) + 1].rule == Rule::ParamList
}

/// Where the body of a node stands: behind the name and the parameter list.
pub open spec fn body_at(p: Pair) -> int {
    if has_params(p) {
        name_at(p) + 2
    } else {
        name_at(p) + 1
    }
}

/// A node has a name and a body, and its body is well shaped.
pub open spec fn node_shaped(p: Pair) -> bool
    decreases p, 0nat,
{
    body_at(p) < p.inner@.len() && block_shaped(p.inner@[body_at(p)].inner@)
}

/// Each pair of a block is well shaped.
pub open spec fn block_shaped(ps: Seq<Pair>) -> bool
    decreases ps, 0nat,
{
    forall|i: int| 0 <= i < ps.len() ==> stmt_shaped(#[trigger] ps[i])
}

/// A pair is well shaped if it has the parts that its rule must have:
/// a shell command its text, an assignment a name and a value, a condition
/// its three parts and a block, with or without a second block; a loop a
/// variable, a list and a block. Blocks and sub-commands are well shaped
/// throughout.
pub open spec fn stmt_shaped(p: Pair) -> bool
    decreases p, 1nat,
{
    match p.rule {
        Rule::Node => node_shaped(p),
        Rule::Exec => p.inner@.len() >= 1,
        Rule::Assignment => p.inner@.len() >= 2,
        Rule::IfStmt => p.inner@.len() >= 2 && cond_shaped(p.inner@[0]) && block_shaped(
            p.inner@[1].inner@,
        ) && (p.inner@.len() >= 3 ==> block_shaped(p.inner@[2].inner@)),
        Rule::ForStmt => p.inner@.len() >= 3 && block_shaped(p.inner@[2].inner@),
        _ => true,
    }
}

/// The node that a well-shaped pair stands for.
pub open spec fn node_of(p: Pair) -> NodeView
    decreases p, 0nat,
    when node_shaped(p)
{
    NodeView {
        name: p.inner@[name_at(p)].text@,
        params: if has_params(p) {
            names_of(p.inner@[name_at(p) + 1].inner@)
        } else {
            Seq::empty()
        },
        body: stmts_of(p.inner@[body_at(p)].inner@),
    }
}

/// The statements that a well-shaped block stands for, in order. A pair
/// of a rule that is no statement adds nothing.
pub open spec fn stmts_of(ps: Seq<Pair>) -> Seq<StmtView>
    decreases ps, 0nat,
    when block_shaped(ps)
{
    if ps.len() == 0 {
        Seq::empty()
    } else {
        match stmt_of(ps.last()) {
            Some(stmt) => stmts_of(ps.drop_last()).push(stmt),
            None => stmts_of(ps.drop_last()),
        }
    }
}

/// The statement that a well-shaped pair stands for, if its rule is one of
/// a statement.
pub open spec fn stmt_of(p: Pair) -> Option<StmtView>
    decreases p, 1nat,
    when stmt_shaped(p)
{
    match p.rule {
        Rule::Node => Some(StmtView::Command(node_of(p))),
        Rule::Exec => Some(StmtView::Exec(p.inner@[0].text@)),
        Rule::Assignment => Some(StmtView::Assignment(p.inner@[0].text@, value_of(p.inner@[1]))),
        Rule::Depends => Some(StmtView::Depends(names_of(p.inner@))),
        Rule::IfStmt => Some(
            StmtView::If(
                cond_of(p.inner@[0]),
                stmts_of(p.inner@[1].inner@),
                if p.inner@.len() >= 3 {
                    Some(stmts_of(p.inner@[2].inner@))
                } else {
                    None
                },
            ),
        ),
        Rule::ForStmt => Some(
            StmtView::For(
                p.inner@[0].text@,
                values_of(p.inner@[1].inner@),
                stmts_of(p.inner@[2].inner@),
            ),
        ),
        _ => None,
    }
}

/// Every node among the pairs of a program is well shaped.
pub open spec fn program_shaped(p: Pair) -> bool {
    forall|i: int|
        0 <= i < p.inner@.len() && (#[trigger] p.inner@[i]).rule == Rule::Node ==> node_shaped(
            p.inner@[i],
        )
}

/// The nodes among the pairs, in order.
pub open spec fn nodes_of(ps: Seq<Pair>) -> Seq<NodeView>
    decreases ps.len(),
{
    if ps.len() == 0 {
        Seq::empty()
    } else if ps.last().rule == Rule::Node {
        nodes_of(ps.drop_last()).push(node_of(ps.last()))
    } else {
        nodes_of(ps.drop_last())
    }
}

/// The value of a pair: see `value_of`.
pub fn parse_value(pair: &Pair) -> (r: String)
    ensures
        r@ == value_of(*pair),
{
    match pair.rule {
        Rule::StringLit => String::from_str(trim_matches(pair.text.as_str(), '"')),
        _ => pair.text.clone(),
    }
}

/// The texts of the pairs, in order.
fn collect_names(pairs: &[Pair]) -> (r: Vec<String>)
    ensures
        texts(r@) == names_of(pairs@),
{
    let mut names: Vec<String> = Vec::new();
    let n = pairs.len();
    let mut i: usize = 0;
    while i < n
        invariant
            n == pairs@.len(),
            i <= n,
            names@.len() == i,
            texts(names@) == names_of(pairs@.take(i as int)),
        decreases n - i,
    {
        let ghost before = names@;
        names.push(pairs[i].text.clone());
        assert forall|j: int| 0 <= j < names@.len() implies texts(names@)[j] == names_of(
            pairs@.take(i as int + 1),
        )[j] by {
            if j < i {
                assert(texts(before)[j] == names_of(pairs@.take(i as int))[j]);
            }
        }
        assert(texts(names@) =~= names_of(pairs@.take(i as int + 1)));
        i += 1;
    }
    assert(pairs@.take(n as int) =~= pairs@);
    names
}

/// The values of the pairs, in order.
fn collect_values(pairs: &[Pair]) -> (r: Vec<String>)
    ensures
        texts(r@) == values_of(pairs@),
{
    let mut values: Vec<String> = Vec::new();
    let n = pairs.len();
    let mut i: usize = 0;
    while i < n
        invariant
            n == pairs@.len(),
            i <= n,
            values@.len() == i,
            texts(values@) == values_of(pairs@.take(i as int)),
        decreases n - i,
    {
        let ghost before = values@;
        values.push(parse_value(&pairs[i]));
        assert forall|j: int| 0 <= j < values@.len() implies texts(values@)[j] == values_of(
            pairs@.take(i as int + 1),
        )[j] by {
            if j < i {
                assert(texts(before)[j] == values_of(pairs@.take(i as int))[j]);
            }
        }
        assert(texts(values@) =~= values_of(pairs@.take(i as int + 1)));
        i += 1;
    }
    assert(pairs@.take(n as int) =~= pairs@);
    values
}

/// Reads the pairs of a block. The result is `None` exactly if some pair lacks
/// a part that its rule must have; otherwise it is the block's statements.
#[verifier::loop_isolation(false)]
pub fn parse_statements(pairs: &[Pair]) -> (r: Option<Vec<Statement>>)
    ensures
        r is Some <==> block_shaped(pairs@),
        r is Some ==> block_view(r->0@) == stmts_of(pairs@),
    decreases pairs@, 0nat,
{
    let mut statements: Vec<Statement> = Vec::new();
    let n = pairs.len();
    let mut i: usize = 0;
    assert(pairs@.take(0) =~= Seq::<Pair>::empty());
    while i < n
        invariant
            i <= n,
            block_shaped(pairs@.take(i as int)),
            block_view(statements@) == stmts_of(pairs@.take(i as int)),
        decreases n - i,
    {
        let stmt = &pairs[i];
        let ghost before = statements@;
        let ghost upto = pairs@.take(i as int + 1);
        assert(upto.drop_last() =~= pairs@.take(i as int));
        assert(upto.last() == pairs@[i as int]);
        assert(decreases_to!(pairs@ => pairs@[i as int]));
        match stmt.rule {
            Rule::Node => {
                match parse_node(stmt) {
                    Some(node) => {
                        statements.push(Statement::Command(node));
                    },
                    None => {
                        return None;
                    },
                }
            },
            Rule::Exec => {
                if stmt.inner.len() < 1 {
                    return None;
                }
                statements.push(Statement::Exec(stmt.inner[0].text.clone()));
            },
            Rule::Assignment => {
                if stmt.inner.len() < 2 {
                    return None;
                }
                let name = stmt.inner[0].text.clone();
                let value = parse_value(&stmt.inner[1]);
                statements.push(Statement::Assignment(name, value));
            },
            Rule::Depends => {
                let deps = collect_names(stmt.inner.as_slice());
                statements.push(Statement::Depends(deps));
            },
            Rule::IfStmt => {
                if stmt.inner.len() < 2 {
                    return None;
                }
                let cond_pair = &stmt.inner[0];
                if cond_pair.inner.len() < 3 {
                    return None;
                }
                let left = parse_value(&cond_pair.inner[0]);
                let op = cond_pair.inner[1].text.clone();
                let right = parse_value(&cond_pair.inner[2]);
                let condition = Condition { left, op, right };
                assert(decreases_to!(stmt.inner => stmt.inner[1]));
                let then_block = match parse_statements(stmt.inner[1].inner.as_slice()) {
                    Some(block) => block,
                    None => {
                        return None;
                    },
                };
                let else_block = if stmt.inner.len() >= 3 {
                    assert(decreases_to!(stmt.inner => stmt.inner[2]));
                    match parse_statements(stmt.inner[2].inner.as_slice()) {
                        Some(block) => Some(block),
                        None => {
                            return None;
                        },
                    }
                } else {
                    None
                };
                statements.push(Statement::If { condition, then_block, else_block });
            },
            Rule::ForStmt => {
                if stmt.inner.len() < 3 {
                    return None;
                }
                let var = stmt.inner[0].text.clone();
                let items = collect_values(stmt.inner[1].inner.as_slice());
                assert(decreases_to!(stmt.inner => stmt.inner[2]));
                let block = match parse_statements(stmt.inner[2].inner.as_slice()) {
                    Some(block) => block,
                    None => {
                        return None;
                    },
                };
                statements.push(Statement::For { var, items, block });
            },
            _ => {},
        }
        proof {
            assert(stmt_shaped(pairs@[i as int]));
            assert(block_shaped(upto));
            if statements@.len() > before.len() {
                assert(statements@.drop_last() =~= before);
                assert(stmt_of(pairs@[i as int]) == Some(statements@.last()@));
            } else {
                assert(stmt_of(pairs@[i as int]) is None);
            }
        }
        i += 1;
    }
    assert(pairs@.take(n as int) =~= pairs@);
    Some(statements)
}

/// Reads the pair of a node: an optional doc comment, the name, an optional
/// parameter list, and the body. The result is `None` exactly if the pair is
/// not well shaped.
pub fn parse_node(pair: &Pair) -> (r: Option<CommandNode>)
    ensures
        r is Some <==> node_shaped(*pair),
        r is Some ==> r->0@ == node_of(*pair),
    decreases pair, 0nat,
{
    let n = pair.inner.len();
    let mut at: usize = 0;
    if n > 0 && pair.inner[0].rule == Rule::DocComment {
        at = 1;
    }
    if at >= n {
        return None;
    }
    let name = pair.inner[at].text.clone();
    at += 1;
    if at >= n {
        return None;
    }
    let params = if pair.inner[at].rule == Rule::ParamList {
        let names = collect_names(pair.inner[at].inner.as_slice());
        at += 1;
        names
    } else {
        let names: Vec<String> = Vec::new();
        assert(texts(names@) =~= Seq::<Seq<char>>::empty());
        names
    };
    if at >= n {
        return None;
    }
    assert(at == body_at(*pair));
    assert(decreases_to!(pair.inner => pair.inner[at as int]));
    match parse_statements(pair.inner[at].inner.as_slice()) {
        Some(statements) => Some(CommandNode { name, params, statements }),
        None => None,
    }
}

/// Reads the pair of a whole program: each node among its pairs, in order.
/// The result is `None` exactly if one of these nodes is not well shaped.
pub fn parse_program(program: &Pair) -> (r: Option<Vec<CommandNode>>)
    ensures
        r is Some <==> program_shaped(*program),
        r is Some ==> nodes_view(r->0@) == nodes_of(program.inner@),
{
    let mut nodes: Vec<CommandNode> = Vec::new();
    let n = program.inner.len();
    let mut i: usize = 0;
    assert(program.inner@.take(0) =~= Seq::<Pair>::empty());
    while i < n
        invariant
            n == program.inner@.len(),
            i <= n,
            forall|j: int|
                0 <= j < i && (#[trigger] program.inner@[j]).rule == Rule::Node ==> node_shaped(
                    program.inner@[j],
                ),
            nodes_view(nodes@) == nodes_of(program.inner@.take(i as int)),
        decreases n - i,
    {
        let ghost before = nodes@;
        let ghost upto = program.inner@.take(i as int + 1);
        assert(upto.drop_last() =~= program.inner@.take(i as int));
        assert(upto.last() == program.inner@[i as int]);
        if program.inner[i].rule == Rule::Node {
            match parse_node(&program.inner[i]) {
                Some(node) => {
                    nodes.push(node);
                    assert(nodes_view(nodes@) =~= nodes_view(before).push(nodes@.last()@));
                },
                None => {
                    return None;
                },
            }
        }
        i += 1;
    }
    assert(program.inner@.take(n as int) =~= program.inner@);
    Some(nodes)
}

} // verus!
