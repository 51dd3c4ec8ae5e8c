use rpn::parse::parse;
use rpn::{BinOp, Node, UnOp};

fn reduce_to(l: &str, r: &str) {
    let mut ln = parse(l).unwrap();
    let rn = parse(r).unwrap();
    ln.reduce();
    assert_eq!(ln, rn);
}

fn constant(name: &str) -> Node {
    Node::Constant(name.to_string())
}

#[test]
fn reduce_test() {
    reduce_to("pi--", "pi");
    reduce_to("a a+", "a 2*");
    reduce_to("a a=", "true");
}

#[test]
fn reduce_leaves_unchanged() {
    for leaf in [constant("x"), Node::IntValue(7), Node::BoolValue(false)] {
        let mut n = leaf.clone();
        n.reduce();
        assert_eq!(n, leaf);
    }
}

#[test]
fn reduce_double_negation_exact() {
    let mut n = parse("pi--").unwrap();
    n.reduce();
    assert_eq!(n, constant("pi"));
}

#[test]
fn reduce_triple_negation_keeps_one() {
    let mut n = parse("pi---").unwrap();
    n.reduce();
    assert_eq!(n, Node::UnaryOp(UnOp::Neg, Box::new(constant("pi"))));
}

#[test]
fn reduce_quadruple_negation() {
    reduce_to("pi----", "pi");
}

#[test]
fn reduce_self_addition_exact() {
    let mut n = parse("a a+").unwrap();
    n.reduce();
    assert_eq!(
        n,
        Node::BinOp(BinOp::Mul, Box::new(constant("a")), Box::new(Node::IntValue(2)))
    );
}

#[test]
fn reduce_self_addition_of_subtrees() {
    reduce_to("a 1+ a 1+ +", "a 1+ 2*");
}

#[test]
fn reduce_children_before_parent() {
    // each side simplifies to `x * 2`, after which the two sides are equal
    reduce_to("x x+ x x+ =", "true");
    reduce_to("y-- y+", "y 2*");
}

#[test]
fn reduce_self_equality_exact() {
    let mut n = parse("a a=").unwrap();
    n.reduce();
    assert_eq!(n, Node::BoolValue(true));
}

#[test]
fn reduce_leaves_other_nodes() {
    reduce_to("a b+", "a b+");
    reduce_to("a a*", "a a*");
    reduce_to("a b=", "a b=");
    reduce_to("2 2*", "2 2*");
    let mut n = Node::BinOp(BinOp::Div, Box::new(constant("a")), Box::new(constant("a")));
    let m = n.clone();
    n.reduce();
    assert_eq!(n, m);
}

#[test]
fn node_equality_is_structural() {
    assert_eq!(parse("a b+").unwrap(), parse("a   b +").unwrap());
    assert_ne!(parse("a b+").unwrap(), parse("b a+").unwrap());
    assert_ne!(constant("a"), constant("b"));
    assert_ne!(Node::IntValue(1), Node::BoolValue(true));
}
