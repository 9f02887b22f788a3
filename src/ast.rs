use vstd::prelude::*;

verus! {

/// An expression tree. Each binary node owns its two operands.
#[derive(Debug, PartialEq, Eq)]
pub enum Node {
    Number(i32),
    Variable(String),
    Add(Box<Node>, Box<Node>),
    Sub(Box<Node>, Box<Node>),
    Mul(Box<Node>, Box<Node>),
    Div(Box<Node>, Box<Node>),
}

/// One statement of a program: a bare expression, or an assignment of an
/// expression's value to a name.
#[derive(Debug, PartialEq, Eq)]
pub enum Statement {
    Node(Node),
    Assign(String, Node),
}

/// The mathematical value of a `Node`: names are sequences of characters.
pub enum NodeModel {
    Number(i32),
    Variable(Seq<char>),
    Add(Box<NodeModel>, Box<NodeModel>),
    Sub(Box<NodeModel>, Box<NodeModel>),
    Mul(Box<NodeModel>, Box<NodeModel>),
    Div(Box<NodeModel>, Box<NodeModel>),
}

/// The mathematical value of a `Statement`.
pub enum StatementModel {
    Node(NodeModel),
    Assign(Seq<char>, NodeModel),
}

impl View for Node {
    type V = NodeModel;

    open spec fn view(&self) -> NodeModel
        decreases self,
    {
        match self {
            Node::Number(n) => NodeModel::Number(*n),
            Node::Variable(name) => NodeModel::Variable(name@),
            Node::Add(l, r) => NodeModel::Add(Box::new((**l).view()), Box::new((**r).view())),
            Node::Sub(l, r) => NodeModel::Sub(Box::new((**l).view()), Box::new((**r).view())),
            Node::Mul(l, r) => NodeModel::Mul(Box::new((**l).view()), Box::new((**r).view())),
            Node::Div(l, r) => NodeModel::Div(Box::new((**l).view()), Box::new((**r).view())),
        }
    }
}

impl View for Statement {
    type V = StatementModel;

    open spec fn view(&self) -> StatementModel {
        match self {
            Statement::Node(n) => StatementModel::Node(n@),
            Statement::Assign(name, n) => StatementModel::Assign(name@, n@),
        }
    }
}

/// The models of a sequence of statements, in order.
pub open spec fn statement_models(s: Seq<Statement>) -> Seq<StatementModel> {
    s.map_values(|st: Statement| st@)
}

} // verus!
