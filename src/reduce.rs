//! Bottom-up simplification of expression trees.
use vstd::prelude::*;

use crate::ast::{BinOp, Node, Term, UnOp};

verus! {

/// The rewrite applied at one node whose children are already simplified;
/// the first rule that matches wins, and a node that no rule matches stays.
pub open spec fn rewrite(t: Term) -> Term {
    match t {
        Term::UnaryOp(UnOp::Neg, x) => match *x {
            Term::UnaryOp(UnOp::Neg, y) => *y,
            _ => t,
        },
        Term::BinOp(BinOp::Add, a, b) => if a == b {
            Term::BinOp(BinOp::Mul, a, Box::new(Term::IntValue(2)))
        } else {
            t
        },
        Term::BinOp(BinOp::Eq, a, b) => if a == b {
            Term::BoolValue(true)
        } else {
            t
        },
        _ => t,
    }
}

/// The simplified form of a term: children first, then the rewrite at the
/// node itself.
pub open spec fn reduced(t: Term) -> Term
    decreases t,
{
    match t {
        Term::BinOp(op, a, b) => rewrite(
            Term::BinOp(op, Box::new(reduced(*a)), Box::new(reduced(*b))),
        ),
        Term::UnaryOp(op, x) => rewrite(Term::UnaryOp(op, Box::new(reduced(*x)))),
        _ => t,
    }
}

impl Node {
    /// Simplifies the tree in place, bottom-up: a double negation becomes its
    /// operand, `a + a` becomes `a * 2`, and `a = a` becomes `true`.
    pub fn reduce(&mut self)
        ensures
            final(self)@ == reduced(old(self)@),
    {
        let mut this = Node::IntValue(0);
        core::mem::swap(self, &mut this);
        *self = reduce_owned(this);
    }
}

/// The simplified form of a tree that is handed over by value.
fn reduce_owned(n: Node) -> (r: Node)
    ensures
        r@ == reduced(n@),
    decreases n,
{
    let ghost t = n@;
    match n {
        Node::BinOp(op, a, b) => {
            let a = reduce_owned(*a);
            let b = reduce_owned(*b);
            let ghost children = Term::BinOp(op, Box::new(a@), Box::new(b@));
            assert(reduced(t) == rewrite(children));
            match op {
                BinOp::Add => if a.same_tree(&b) {
                    let two = Node::IntValue(2);
                    assert(two@ == Term::IntValue(2));
                    Node::BinOp(BinOp::Mul, Box::new(a), Box::new(two))
                } else {
                    Node::BinOp(op, Box::new(a), Box::new(b))
                },
                BinOp::Eq => if a.same_tree(&b) {
                    Node::BoolValue(true)
                } else {
                    Node::BinOp(op, Box::new(a), Box::new(b))
                },
                _ => Node::BinOp(op, Box::new(a), Box::new(b)),
            }
        },
        Node::UnaryOp(op, x) => {
            let x = reduce_owned(*x);
            assert(reduced(t) == rewrite(Term::UnaryOp(op, Box::new(x@))));
            match x {
                Node::UnaryOp(UnOp::Neg, y) => *y,
                _ => Node::UnaryOp(op, Box::new(x)),
            }
        },
        _ => n,
    }
}

} // verus!
