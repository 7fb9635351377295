//! The syntax tree of a script, and the mathematical values it stands for.

use vstd::prelude::*;

verus! {

/// A named command: parameters, and a body of statements. Sub-commands are
/// the `Command` statements of the body.
#[derive(Debug, PartialEq, Eq)]
pub struct CommandNode {
    pub name: String,
    pub params: Vec<String>,
    pub statements: Vec<Statement>,
}

/// One element of a node's body.
#[derive(Debug, PartialEq, Eq)]
pub enum Statement {
    /// Declares a sub-command. Declaring it does not run it.
    Command(CommandNode),
    /// A shell command; may mention variables as `$name`.
    Exec(String),
    /// Binds the variable to the expanded value.
    Assignment(String, String),
    /// Runs the named top-level nodes first.
    Depends(Vec<String>),
    If { condition: Condition, then_block: Vec<Statement>, else_block: Option<Vec<Statement>> },
    For { var: String, items: Vec<String>, block: Vec<Statement> },
}

/// A comparison of two operands. The operators are `==`, `!=`, `>` and `<`.
#[derive(Debug, PartialEq, Eq)]
pub struct Condition {
    pub left: String,
    pub op: String,
    pub right: String,
}

/// What a `Condition` says.
pub struct CondView {
    pub left: Seq<char>,
    pub op: Seq<char>,
    pub right: Seq<char>,
}

/// What a `CommandNode` says.
pub struct NodeView {
    pub name: Seq<char>,
    pub params: Seq<Seq<char>>,
    pub body: Seq<StmtView>,
}

/// What a `Statement` says.
pub enum StmtView {
    Command(NodeView),
    Exec(Seq<char>),
    Assignment(Seq<char>, Seq<char>),
    Depends(Seq<Seq<char>>),
    If(CondView, Seq<StmtView>, Option<Seq<StmtView>>),
    For(Seq<char>, Seq<Seq<char>>, Seq<StmtView>),
}

/// The texts of a sequence of strings.
pub open spec fn texts(v: Seq<String>) -> Seq<Seq<char>> {
    Seq::new(v.len(), |i: int| v[i]@)
}

/// The meaning of a block: the meaning of each statement, in order.
pub open spec fn block_view(stmts: Seq<Statement>) -> Seq<StmtView>
    decreases stmts,
{
    if stmts.len() == 0 {
        Seq::empty()
    } else {
        block_view(stmts.drop_last()).push(stmt_view(stmts.last()))
    }
}

/// The meaning of a statement.
pub open spec fn stmt_view(stmt: Statement) -> StmtView
    decreases stmt,
{
    match stmt {
        Statement::Command(node) => StmtView::Command(node_view(node)),
        Statement::Exec(cmd) => StmtView::Exec(cmd@),
        Statement::Assignment(name, value) => StmtView::Assignment(name@, value@),
        Statement::Depends(deps) => StmtView::Depends(texts(deps@)),
        Statement::If { condition, then_block, else_block } => StmtView::If(
            condition@,
            block_view(then_block@),
            match else_block {
                Some(stmts) => Some(block_view(stmts@)),
                None => None,
            },
        ),
        Statement::For { var, items, block } => StmtView::For(
            var@,
            texts(items@),
            block_view(block@),
        ),
    }
}

/// The meaning of a node.
pub open spec fn node_view(node: CommandNode) -> NodeView
    decreases node,
{
    NodeView {
        name: node.name@,
        params: texts(node.params@),
        body: block_view(node.statements@),
    }
}

impl View for Condition {
    type V = CondView;

    open spec fn view(&self) -> CondView {
        CondView { left: self.left@, op: self.op@, right: self.right@ }
    }
}

impl View for Statement {
    type V = StmtView;

    open spec fn view(&self) -> StmtView {
        stmt_view(*self)
    }
}

impl View for CommandNode {
    type V = NodeView;

    open spec fn view(&self) -> NodeView {
        node_view(*self)
    }
}

/// The meanings of a sequence of nodes, in order.
pub open spec fn nodes_view(nodes: Seq<CommandNode>) -> Seq<NodeView> {
    Seq::new(nodes.len(), |i: int| nodes[i]@)
}

/// `block_view` keeps the length and maps statement by statement.
pub proof fn lemma_block_view(stmts: Seq<Statement>)
    ensures
        block_view(stmts).len() == stmts.len(),
        forall|i: int| 0 <= i < stmts.len() ==> #[trigger] block_view(stmts)[i] == stmts[i]@,
    decreases stmts.len(),
{
    if stmts.len() > 0 {
        lemma_block_view(stmts.drop_last());
    }
}

} // verus!
