//! The postfix parser: a left-to-right scan that keeps a stack of trees.
use vstd::prelude::*;

use crate::ast::{BinOp, Node, Term, UnOp};
use crate::text::{
    char_is_alphabetic, char_is_alphanumeric, char_is_whitespace, chars_of, is_alphabetic,
    is_alphanumeric, is_ascii_digit, is_space, push_char, radix_value, string_of,
    u128_from_str_radix,
};

verus! {

/// The operand that an operator found missing, in the order they are taken
/// off the stack: the first is the right-hand one.
#[derive(Debug, Clone, Copy, PartialEq, Eq, Structural)]
pub enum Operand {
    First,
    Second,
}

/// Why an input is not a postfix expression.
#[derive(Debug)]
pub enum ParseError {
    /// The input holds no value at all: it is empty or white space.
    MissingReturnValue,
    /// The input ended with more than one value on the stack; holds how many.
    TooManyArguments(usize),
    /// An operator found fewer values on the stack than it takes.
    MissingArgument(char, Operand),
    /// A token that starts with a digit is not an integer; holds the token.
    InvalidInteger(String),
    /// A character that starts no token.
    UnexpectedSymbol(char),
}

/// The mathematical value of a `ParseError`.
pub enum Fault {
    MissingReturnValue,
    TooManyArguments(nat),
    MissingArgument(char, Operand),
    InvalidInteger(Seq<char>),
    UnexpectedSymbol(char),
}

impl View for ParseError {
    type V = Fault;

    open spec fn view(&self) -> Fault {
        match self {
            ParseError::MissingReturnValue => Fault::MissingReturnValue,
            ParseError::TooManyArguments(n) => Fault::TooManyArguments(*n as nat),
            ParseError::MissingArgument(c, which) => Fault::MissingArgument(*c, *which),
            ParseError::InvalidInteger(token) => Fault::InvalidInteger(token@),
            ParseError::UnexpectedSymbol(c) => Fault::UnexpectedSymbol(*c),
        }
    }
}

impl PartialEq for ParseError {
    fn eq(&self, other: &ParseError) -> (r: bool) {
        match (self, other) {
            (ParseError::MissingReturnValue, ParseError::MissingReturnValue) => true,
            (ParseError::TooManyArguments(a), ParseError::TooManyArguments(b)) => *a == *b,
            (ParseError::MissingArgument(c1, w1), ParseError::MissingArgument(c2, w2)) => {
                *c1 == *c2 && *w1 == *w2
            },
            (ParseError::InvalidInteger(a), ParseError::InvalidInteger(b)) => a.eq(b),
            (ParseError::UnexpectedSymbol(a), ParseError::UnexpectedSymbol(b)) => *a == *b,
            _ => false,
        }
    }
}

impl vstd::std_specs::cmp::PartialEqSpecImpl for ParseError {
    open spec fn obeys_eq_spec() -> bool {
        true
    }

    open spec fn eq_spec(&self, other: &ParseError) -> bool {
        self@ == other@
    }
}

impl Eq for ParseError {
}

/// The mathematical value of what `parse` returns.
pub open spec fn outcome(r: Result<Node, ParseError>) -> Result<Term, Fault> {
    match r {
        Ok(n) => Ok(n@),
        Err(e) => Err(e@),
    }
}

/// The values of a stack of trees.
pub open spec fn terms(stack: Seq<Node>) -> Seq<Term> {
    stack.map_values(|n: Node| n@)
}

/// Characters that make up words: numerals and identifiers.
pub open spec fn is_word_char(c: char) -> bool {
    is_alphanumeric(c) || c == '_'
}

/// The end of the run of word characters that starts at `i`.
pub open spec fn word_end(s: Seq<char>, i: int) -> int
    decreases s.len() - i,
{
    if 0 <= i < s.len() && is_word_char(s[i]) {
        word_end(s, i + 1)
    } else {
        i
    }
}

/// A word ends within the text, and every character before its end is a
/// word character.
pub proof fn lemma_word_end_bounds(s: Seq<char>, i: int)
    requires
        0 <= i <= s.len(),
    ensures
        i <= word_end(s, i) <= s.len(),
        forall|k: int| i <= k < word_end(s, i) ==> is_word_char(#[trigger] s[k]),
    decreases s.len() - i,
{
    if i < s.len() && is_word_char(s[i]) {
        lemma_word_end_bounds(s, i + 1);
    }
}

/// A token with its `_` digit separators taken out.
pub open spec fn without_underscores(t: Seq<char>) -> Seq<char>
    decreases t.len(),
{
    if t.len() == 0 {
        t
    } else if t.last() == '_' {
        without_underscores(t.drop_last())
    } else {
        without_underscores(t.drop_last()).push(t.last())
    }
}

/// The base of a numeral: a leading `0x`, `0o` or `0b` selects 16, 8 or 2;
/// anything else, `0` alone included, is decimal.
pub open spec fn literal_radix(u: Seq<char>) -> u32 {
    if u.len() > 1 && u[0] == '0' {
        if u[1] == 'x' {
            16
        } else if u[1] == 'o' {
            8
        } else if u[1] == 'b' {
            2
        } else {
            10
        }
    } else {
        10
    }
}

/// The digits of a numeral, after its base prefix.
pub open spec fn literal_digits(u: Seq<char>) -> Seq<char> {
    if literal_radix(u) == 10 {
        u
    } else {
        u.subrange(2, u.len() as int)
    }
}

/// The integer that a numeric token writes, if any.
pub open spec fn literal_value(t: Seq<char>) -> Option<u128> {
    let u = without_underscores(t);
    radix_value(literal_digits(u), literal_radix(u) as int)
}

/// The tree for an identifier: `true` and `false` are the two booleans, any
/// other name is a constant.
pub open spec fn word_term(w: Seq<char>) -> Term {
    if w == seq!['t', 'r', 'u', 'e'] {
        Term::BoolValue(true)
    } else if w == seq!['f', 'a', 'l', 's', 'e'] {
        Term::BoolValue(false)
    } else {
        Term::Constant(w)
    }
}

/// The operator that a binary operator symbol builds; `/` builds an addition.
pub open spec fn binary_op(c: char) -> Option<BinOp> {
    if c == '+' || c == '/' {
        Some(BinOp::Add)
    } else if c == '*' {
        Some(BinOp::Mul)
    } else if c == '=' {
        Some(BinOp::Eq)
    } else {
        None
    }
}

/// The result once the input is used up: the one value left on the stack.
pub open spec fn finish(stack: Seq<Term>) -> Result<Term, Fault> {
    if stack.len() > 1 {
        Err(Fault::TooManyArguments(stack.len()))
    } else if stack.len() == 1 {
        Ok(stack[0])
    } else {
        Err(Fault::MissingReturnValue)
    }
}

/// The result of parsing `s` from position `i` on, with `stack` holding the
/// values built so far.
pub open spec fn parse_from(s: Seq<char>, i: int, stack: Seq<Term>) -> Result<Term, Fault>
    decreases s.len() - i,
{
    if i < 0 || i >= s.len() {
        finish(stack)
    } else if is_space(s[i]) {
        parse_from(s, i + 1, stack)
    } else {
        let c = s[i];
        let n = stack.len();
        if c == '-' {
            if n == 0 {
                Err(Fault::MissingArgument(c, Operand::First))
            } else {
                let x = Term::UnaryOp(UnOp::Neg, Box::new(stack[n - 1]));
                parse_from(s, i + 1, stack.drop_last().push(x))
            }
        } else if binary_op(c) is Some {
            if n == 0 {
                Err(Fault::MissingArgument(c, Operand::First))
            } else if n == 1 {
                Err(Fault::MissingArgument(c, Operand::Second))
            } else {
                let x = Term::BinOp(
                    binary_op(c)->0,
                    Box::new(stack[n - 2]),
                    Box::new(stack[n - 1]),
                );
                parse_from(s, i + 1, stack.subrange(0, n - 2).push(x))
            }
        } else if is_ascii_digit(c) || is_alphabetic(c) || c == '_' {
            // The first character is a word character already, so the word
            // runs on from the next one.
            proof {
                lemma_word_end_bounds(s, i + 1);
            }
            let e = word_end(s, i + 1);
            let w = s.subrange(i, e);
            if is_ascii_digit(c) {
                match literal_value(w) {
                    Some(v) => parse_from(s, e, stack.push(Term::IntValue(v))),
                    None => Err(Fault::InvalidInteger(w)),
                }
            } else {
                parse_from(s, e, stack.push(word_term(w)))
            }
        } else {
            Err(Fault::UnexpectedSymbol(c))
        }
    }
}

/// The result of parsing a whole text.
pub open spec fn parse_text(s: Seq<char>) -> Result<Term, Fault> {
    parse_from(s, 0, Seq::empty())
}

/// Whether a character belongs to a word.
fn is_word(c: char) -> (r: bool)
    ensures
        r == is_word_char(c),
{
    char_is_alphanumeric(c) || c == '_'
}

/// The end of the run of word characters in `cs` that starts at `i`.
fn scan_word(cs: &Vec<char>, i: usize) -> (e: usize)
    requires
        i <= cs.len(),
    ensures
        e == word_end(cs@, i as int),
{
    let mut k: usize = i;
    while k < cs.len() && is_word(cs[k])
        invariant
            i <= k <= cs.len(),
            word_end(cs@, i as int) == word_end(cs@, k as int),
        decreases cs.len() - k,
    {
        k += 1;
    }
    k
}

/// Reads the numeric token that starts at `start`: the run of word
/// characters there, with `_` separators dropped and a base prefix honoured.
/// Returns where the token ends and its value.
fn parse_num(cs: &Vec<char>, start: usize) -> (r: Result<(usize, u128), ParseError>)
    requires
        start < cs.len(),
        is_ascii_digit(cs@[start as int]),
    ensures
        ({
            let e = word_end(cs@, start + 1);
            let w = cs@.subrange(start as int, e);
            match r {
                Ok((end, v)) => end == e && literal_value(w) == Some(v),
                Err(err) => literal_value(w) is None && err@ == Fault::InvalidInteger(w),
            }
        }),
{
    let e = scan_word(cs, start + 1);
    proof {
        lemma_word_end_bounds(cs@, start + 1);
    }
    let ghost w = cs@.subrange(start as int, e as int);
    // the token without its separators
    let mut u: Vec<char> = Vec::new();
    let mut k: usize = start;
    while k < e
        invariant
            start <= k <= e <= cs.len(),
            u@ == without_underscores(cs@.subrange(start as int, k as int)),
        decreases e - k,
    {
        let ghost before = cs@.subrange(start as int, k as int);
        assert(cs@.subrange(start as int, k + 1).drop_last() =~= before);
        if cs[k] != '_' {
            u.push(cs[k]);
        }
        k += 1;
    }
    assert(cs@.subrange(start as int, k as int) =~= w);
    let radix: u32 = if u.len() > 1 && u[0] == '0' {
        if u[1] == 'x' {
            16
        } else if u[1] == 'o' {
            8
        } else if u[1] == 'b' {
            2
        } else {
            10
        }
    } else {
        10
    };
    let from: usize = if radix == 10 {
        0
    } else {
        2
    };
    let mut digits = String::new();
    let mut k: usize = from;
    while k < u.len()
        invariant
            from <= k <= u.len(),
            from <= u.len(),
            digits@ == u@.subrange(from as int, k as int),
        decreases u.len() - k,
    {
        push_char(&mut digits, u[k]);
        assert(u@.subrange(from as int, k + 1) =~= u@.subrange(from as int, k as int).push(u@[k as int]));
        k += 1;
    }
    assert(digits@ =~= literal_digits(u@));
    match u128_from_str_radix(digits.as_str(), radix) {
        Some(v) => Ok((e, v)),
        None => Err(ParseError::InvalidInteger(string_of(cs, start, e))),
    }
}

/// Reads the identifier that starts at `start`; `true` and `false` are the
/// booleans. Returns where the identifier ends and its tree.
fn parse_ident(cs: &Vec<char>, start: usize) -> (r: (usize, Node))
    requires
        start < cs.len(),
    ensures
        r.0 == word_end(cs@, start + 1),
        r.1@ == word_term(cs@.subrange(start as int, r.0 as int)),
{
    let e = scan_word(cs, start + 1);
    proof {
        lemma_word_end_bounds(cs@, start + 1);
    }
    let ghost w = cs@.subrange(start as int, e as int);
    let len = e - start;
    if len == 4 && cs[start] == 't' && cs[start + 1] == 'r' && cs[start + 2] == 'u'
        && cs[start + 3] == 'e' {
        assert(w =~= seq!['t', 'r', 'u', 'e']);
        (e, Node::BoolValue(true))
    } else if len == 5 && cs[start] == 'f' && cs[start + 1] == 'a' && cs[start + 2] == 'l'
        && cs[start + 3] == 's' && cs[start + 4] == 'e' {
        assert(w =~= seq!['f', 'a', 'l', 's', 'e']);
        assert(w != seq!['t', 'r', 'u', 'e']);
        (e, Node::BoolValue(false))
    } else {
        proof {
            assert(w.len() == len);
            if w == seq!['t', 'r', 'u', 'e'] {
                assert(w[0] == cs@[start as int] && w[1] == cs@[start + 1]);
                assert(w[2] == cs@[start + 2] && w[3] == cs@[start + 3]);
            }
            if w == seq!['f', 'a', 'l', 's', 'e'] {
                assert(w[0] == cs@[start as int] && w[1] == cs@[start + 1]);
                assert(w[2] == cs@[start + 2] && w[3] == cs@[start + 3]);
                assert(w[4] == cs@[start + 4]);
            }
        }
        (e, Node::Constant(string_of(cs, start, e)))
    }
}

/// Parses a postfix expression. Tokens are read left to right, white space
/// between them skipped: a numeral or an identifier pushes its value, and an
/// operator replaces the values it takes from the top of the stack (the top
/// one is its right-hand operand) with the tree it builds. `-` negates one
/// value; `+`, `*` and `=` combine two, and `/` builds an addition as `+`
/// does. The text is an expression if exactly one value is left at its end.
pub fn parse(s: &str) -> (r: Result<Node, ParseError>)
    ensures
        outcome(r) == parse_text(s@),
{
    let cs = chars_of(s);
    let mut stack: Vec<Node> = Vec::new();
    let mut i: usize = 0;
    assert(terms(stack@) =~= Seq::<Term>::empty());
    while i < cs.len()
        invariant
            i <= cs.len(),
            cs@ == s@,
            parse_text(s@) == parse_from(cs@, i as int, terms(stack@)),
        decreases cs.len() - i,
    {
        let c = cs[i];
        let ghost before = terms(stack@);
        let ghost n = before.len();
        proof {
            lemma_word_end_bounds(cs@, i + 1);
        }
        if char_is_whitespace(c) {
            i += 1;
        } else if c == '-' {
            match stack.pop() {
                None => {
                    return Err(ParseError::MissingArgument(c, Operand::First));
                },
                Some(x) => {
                    stack.push(Node::UnaryOp(UnOp::Neg, Box::new(x)));
                    assert(terms(stack@) =~= before.drop_last().push(
                        Term::UnaryOp(UnOp::Neg, Box::new(before[n - 1])),
                    ));
                },
            }
            i += 1;
        } else if c == '+' || c == '*' || c == '/' || c == '=' {
            let op = if c == '*' {
                BinOp::Mul
            } else if c == '=' {
                BinOp::Eq
            } else {
                BinOp::Add
            };
            let right = match stack.pop() {
                None => {
                    return Err(ParseError::MissingArgument(c, Operand::First));
                },
                Some(x) => x,
            };
            let left = match stack.pop() {
                None => {
                    return Err(ParseError::MissingArgument(c, Operand::Second));
                },
                Some(x) => x,
            };
            stack.push(Node::BinOp(op, Box::new(left), Box::new(right)));
            assert(terms(stack@) =~= before.subrange(0, n - 2).push(
                Term::BinOp(op, Box::new(before[n - 2]), Box::new(before[n - 1])),
            ));
            i += 1;
        } else if '0' <= c && c <= '9' {
            match parse_num(&cs, i) {
                Ok((e, v)) => {
                    stack.push(Node::IntValue(v));
                    assert(terms(stack@) =~= before.push(Term::IntValue(v)));
                    i = e;
                },
                Err(err) => {
                    return Err(err);
                },
            }
        } else if char_is_alphabetic(c) || c == '_' {
            let (e, x) = parse_ident(&cs, i);
            stack.push(x);
            assert(terms(stack@) =~= before.push(x@));
            i = e;
        } else {
            return Err(ParseError::UnexpectedSymbol(c));
        }
    }
    if stack.len() > 1 {
        Err(ParseError::TooManyArguments(stack.len()))
    } else {
        match stack.pop() {
            Some(x) => Ok(x),
            None => Err(ParseError::MissingReturnValue),
        }
    }
}

} // verus!
