//! The syntax tree and its mathematical model.
use vstd::prelude::*;

verus! {

/// Binary operators.
#[derive(Debug, Clone, Copy, PartialEq, Eq, Structural)]
pub enum BinOp {
    /// `a - b` has no operator of its own: it is written `Add(a, Neg(b))`.
    Add,
    Div,
    Mul,
    Eq,
}

/// Unary operators.
#[derive(Debug, Clone, Copy, PartialEq, Eq, Structural)]
pub enum UnOp {
    Neg,
}

/// The types of the expression language; no pass assigns or consults them yet.
pub enum Type {
    Bool,
    Integer,
}

/// An expression tree. Every child is owned by exactly one parent.
#[derive(Debug)]
pub enum Node {
    /// A free, unbound identifier, known by its name.
    Constant(String),
    BinOp(BinOp, Box<Node>, Box<Node>),
    UnaryOp(UnOp, Box<Node>),
    IntValue(u128),
    BoolValue(bool),
}

/// The mathematical value of a `Node`: the same tree, with names as
/// character sequences.
pub enum Term {
    Constant(Seq<char>),
    BinOp(BinOp, Box<Term>, Box<Term>),
    UnaryOp(UnOp, Box<Term>),
    IntValue(u128),
    BoolValue(bool),
}

impl Term {
    /// A term without operator nodes: a name or a literal.
    pub open spec fn is_leaf(self) -> bool {
        !(self is BinOp) && !(self is UnaryOp)
    }
}

impl Node {
    /// The value of the tree.
    pub open spec fn term(&self) -> Term
        decreases self,
    {
        match self {
            Node::Constant(name) => Term::Constant(name@),
            Node::BinOp(op, l, r) => Term::BinOp(*op, Box::new(l.term()), Box::new(r.term())),
            Node::UnaryOp(op, x) => Term::UnaryOp(*op, Box::new(x.term())),
            Node::IntValue(v) => Term::IntValue(*v),
            Node::BoolValue(b) => Term::BoolValue(*b),
        }
    }

    /// Structural equality: the two trees have the same shape, operators,
    /// names and literals.
    pub fn same_tree(&self, other: &Node) -> (r: bool)
        ensures
            r == (self@ == other@),
        decreases self,
    {
        match (self, other) {
            (Node::Constant(a), Node::Constant(b)) => a.eq(b),
            (Node::BinOp(op1, l1, r1), Node::BinOp(op2, l2, r2)) => {
                *op1 == *op2 && l1.same_tree(l2) && r1.same_tree(r2)
            },
            (Node::UnaryOp(op1, x1), Node::UnaryOp(op2, x2)) => *op1 == *op2 && x1.same_tree(x2),
            (Node::IntValue(a), Node::IntValue(b)) => *a == *b,
            (Node::BoolValue(a), Node::BoolValue(b)) => *a == *b,
            _ => false,
        }
    }
}

impl Clone for Node {
    /// A deep copy.
    fn clone(&self) -> (r: Node)
        ensures
            r@ == self@,
        decreases self,
    {
        match self {
            Node::Constant(name) => Node::Constant(name.clone()),
            Node::BinOp(op, l, r) => Node::BinOp(*op, Box::new((**l).clone()), Box::new((**r).clone())),
            Node::UnaryOp(op, x) => Node::UnaryOp(*op, Box::new((**x).clone())),
            Node::IntValue(v) => Node::IntValue(*v),
            Node::BoolValue(b) => Node::BoolValue(*b),
        }
    }
}

impl View for Node {
    type V = Term;

    open spec fn view(&self) -> Term {
        self.term()
    }
}

impl PartialEq for Node {
    fn eq(&self, other: &Node) -> (r: bool) {
        self.same_tree(other)
    }
}

impl vstd::std_specs::cmp::PartialEqSpecImpl for Node {
    open spec fn obeys_eq_spec() -> bool {
        true
    }

    open spec fn eq_spec(&self, other: &Node) -> bool {
        self@ == other@
    }
}

impl Eq for Node {
}

} // verus!
