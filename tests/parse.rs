use rpn::parse::{parse, Operand, ParseError};
use rpn::{BinOp, Node, UnOp};

fn constant(name: &str) -> Node {
    Node::Constant(name.to_string())
}

fn num(v: u128) -> Node {
    Node::IntValue(v)
}

fn bin(op: BinOp, l: Node, r: Node) -> Node {
    Node::BinOp(op, Box::new(l), Box::new(r))
}

fn neg(x: Node) -> Node {
    Node::UnaryOp(UnOp::Neg, Box::new(x))
}

#[test]
fn parse_balanced_postfix() {
    assert_eq!(
        parse("1 2 + 3 *").unwrap(),
        bin(BinOp::Mul, bin(BinOp::Add, num(1), num(2)), num(3))
    );
    assert_eq!(
        parse("a b c + * -").unwrap(),
        neg(bin(BinOp::Mul, constant("a"), bin(BinOp::Add, constant("b"), constant("c"))))
    );
    assert_eq!(
        parse("x y = z w = =").unwrap(),
        bin(
            BinOp::Eq,
            bin(BinOp::Eq, constant("x"), constant("y")),
            bin(BinOp::Eq, constant("z"), constant("w"))
        )
    );
}

#[test]
fn parse_operators_need_no_spaces() {
    assert_eq!(parse("a b+").unwrap(), parse("a b +").unwrap());
    assert_eq!(parse("1 2*3+").unwrap(), bin(BinOp::Add, bin(BinOp::Mul, num(1), num(2)), num(3)));
}

#[test]
fn parse_subtraction_as_negated_addition() {
    assert_eq!(parse("a b - +").unwrap(), bin(BinOp::Add, constant("a"), neg(constant("b"))));
}

#[test]
fn parse_single_values() {
    assert_eq!(parse("pi").unwrap(), constant("pi"));
    assert_eq!(parse("true").unwrap(), Node::BoolValue(true));
    assert_eq!(parse("false").unwrap(), Node::BoolValue(false));
    assert_eq!(parse("truex").unwrap(), constant("truex"));
    assert_eq!(parse("True").unwrap(), constant("True"));
    assert_eq!(parse("_x1").unwrap(), constant("_x1"));
    assert_eq!(parse("  42  ").unwrap(), num(42));
}

#[test]
fn parse_unicode_identifiers_and_spaces() {
    assert_eq!(parse("é").unwrap(), constant("é"));
    assert_eq!(parse("αβ1").unwrap(), constant("αβ1"));
    assert_eq!(
        parse("a\u{3000}b\t+\n").unwrap(),
        bin(BinOp::Add, constant("a"), constant("b"))
    );
}

#[test]
fn parse_empty_input() {
    assert_eq!(parse(""), Err(ParseError::MissingReturnValue));
    assert_eq!(parse("   \t\n"), Err(ParseError::MissingReturnValue));
}

#[test]
fn parse_unconsumed_operands() {
    assert_eq!(parse("1 2"), Err(ParseError::TooManyArguments(2)));
    assert_eq!(parse("a b c +"), Err(ParseError::TooManyArguments(2)));
    assert_eq!(parse("1 2 3"), Err(ParseError::TooManyArguments(3)));
}

#[test]
fn parse_starved_operator() {
    assert_eq!(parse("+"), Err(ParseError::MissingArgument('+', Operand::First)));
    assert_eq!(parse("1 +"), Err(ParseError::MissingArgument('+', Operand::Second)));
    assert_eq!(parse("*"), Err(ParseError::MissingArgument('*', Operand::First)));
    assert_eq!(parse("a /"), Err(ParseError::MissingArgument('/', Operand::Second)));
    assert_eq!(parse("="), Err(ParseError::MissingArgument('=', Operand::First)));
    assert_eq!(parse("-"), Err(ParseError::MissingArgument('-', Operand::First)));
    assert_eq!(parse("1 2 + + 3"), Err(ParseError::MissingArgument('+', Operand::Second)));
}

#[test]
fn parse_radix_literals() {
    assert_eq!(parse("0x1F").unwrap(), num(31));
    assert_eq!(parse("0b101").unwrap(), num(5));
    assert_eq!(parse("1_000").unwrap(), num(1000));
    assert_eq!(parse("0o17").unwrap(), num(15));
    assert_eq!(parse("0xff").unwrap(), num(255));
    assert_eq!(parse("0x_ff").unwrap(), num(255));
    assert_eq!(parse("0").unwrap(), num(0));
    assert_eq!(parse("007").unwrap(), num(7));
}

#[test]
fn parse_largest_integer() {
    assert_eq!(parse("340282366920938463463374607431768211455").unwrap(), num(u128::MAX));
    assert_eq!(
        parse("340282366920938463463374607431768211456"),
        Err(ParseError::InvalidInteger("340282366920938463463374607431768211456".to_string()))
    );
}

#[test]
fn parse_malformed_literals() {
    assert_eq!(parse("1a2"), Err(ParseError::InvalidInteger("1a2".to_string())));
    assert_eq!(parse("0x"), Err(ParseError::InvalidInteger("0x".to_string())));
    assert_eq!(parse("0b102"), Err(ParseError::InvalidInteger("0b102".to_string())));
    assert_eq!(parse("1_2z"), Err(ParseError::InvalidInteger("1_2z".to_string())));
    assert_eq!(parse("12é"), Err(ParseError::InvalidInteger("12é".to_string())));
}

#[test]
fn parse_unexpected_symbol() {
    assert_eq!(parse("a $"), Err(ParseError::UnexpectedSymbol('$')));
    assert_eq!(parse("1 2 %"), Err(ParseError::UnexpectedSymbol('%')));
    assert_eq!(parse("(1)"), Err(ParseError::UnexpectedSymbol('(')));
}

#[test]
fn parse_first_error_wins() {
    assert_eq!(parse("+ $"), Err(ParseError::MissingArgument('+', Operand::First)));
    assert_eq!(parse("$ +"), Err(ParseError::UnexpectedSymbol('$')));
    assert_eq!(parse("0x 1 2"), Err(ParseError::InvalidInteger("0x".to_string())));
}

#[test]
fn parse_division_builds_addition() {
    assert_eq!(parse("6 2/").unwrap(), bin(BinOp::Add, num(6), num(2)));
}
