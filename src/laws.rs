//! Laws of the parser and the simplifier.
use vstd::prelude::*;

use crate::ast::{BinOp, Term, UnOp};
use crate::parse::{
    binary_op, is_word_char, literal_value, parse_from, parse_text, word_end, Fault,
};
use crate::reduce::reduced;
use crate::text::{is_ascii_digit, is_ascii_letter};

verus! {

/// Simplifying a leaf, a name or a literal, leaves it as it is.
pub proof fn reduce_keeps_leaf(t: Term)
    requires
        t.is_leaf(),
    ensures
        reduced(t) == t,
{
}

/// A double negation of a term whose simplified form is not itself a
/// negation simplifies to that form.
pub proof fn reduce_double_negation(x: Term)
    requires
        !(reduced(x) is UnaryOp),
    ensures
        reduced(Term::UnaryOp(UnOp::Neg, Box::new(Term::UnaryOp(UnOp::Neg, Box::new(x)))))
            == reduced(x),
{
    let inner = Term::UnaryOp(UnOp::Neg, Box::new(x));
    assert(reduced(inner) == Term::UnaryOp(UnOp::Neg, Box::new(reduced(x))));
}

/// A term added to itself simplifies to that term, simplified, times two.
pub proof fn reduce_self_addition(a: Term)
    ensures
        reduced(Term::BinOp(BinOp::Add, Box::new(a), Box::new(a))) == Term::BinOp(
            BinOp::Mul,
            Box::new(reduced(a)),
            Box::new(Term::IntValue(2)),
        ),
{
}

/// A term compared with itself simplifies to `true`.
pub proof fn reduce_self_equality(a: Term)
    ensures
        reduced(Term::BinOp(BinOp::Eq, Box::new(a), Box::new(a))) == Term::BoolValue(true),
{
}

/// A token of a postfix text.
pub enum Token {
    /// A numeral or an identifier.
    Word(Seq<char>),
    /// An operator symbol.
    Symbol(char),
}

/// A word of ASCII letters, digits and `_`; one that starts with a digit
/// must be a numeral whose value fits.
pub open spec fn is_plain_word(w: Seq<char>) -> bool {
    &&& w.len() > 0
    &&& forall|k: int|
        0 <= k < w.len() ==> is_ascii_letter(#[trigger] w[k]) || is_ascii_digit(w[k]) || w[k]
            == '_'
    &&& is_ascii_digit(w[0]) ==> literal_value(w) is Some
}

pub open spec fn is_operator_symbol(c: char) -> bool {
    c == '-' || binary_op(c) is Some
}

/// How many values an operator takes.
pub open spec fn arity(c: char) -> int {
    if c == '-' {
        1
    } else {
        2
    }
}

pub open spec fn is_token(t: Token) -> bool {
    match t {
        Token::Word(w) => is_plain_word(w),
        Token::Symbol(c) => is_operator_symbol(c),
    }
}

/// How many values are on the stack after the tokens.
pub open spec fn depth(toks: Seq<Token>) -> int
    decreases toks.len(),
{
    if toks.len() == 0 {
        0
    } else {
        depth(toks.drop_last()) + match toks.last() {
            Token::Word(_) => 1,
            Token::Symbol(c) => 1 - arity(c),
        }
    }
}

/// Tokens in postfix order: every operator finds its operands on the stack,
/// and one value is left at the end.
pub open spec fn is_postfix(toks: Seq<Token>) -> bool {
    &&& forall|k: int| 0 <= k < toks.len() ==> is_token(#[trigger] toks[k])
    &&& forall|k: int|
        0 <= k < toks.len() && #[trigger] toks[k] is Symbol ==> depth(toks.take(k)) >= arity(
            toks[k]->Symbol_0,
        )
    &&& depth(toks) == 1
}

pub open spec fn token_text(t: Token) -> Seq<char> {
    match t {
        Token::Word(w) => w,
        Token::Symbol(c) => seq![c],
    }
}

/// The tokens written out, each after a space.
pub open spec fn spell(toks: Seq<Token>) -> Seq<char>
    decreases toks.len(),
{
    if toks.len() == 0 {
        Seq::empty()
    } else {
        spell(toks.drop_last()) + seq![' '] + token_text(toks.last())
    }
}

/// Tokens in postfix order, written out with spaces between them, parse
/// into one tree.
pub proof fn postfix_parses(toks: Seq<Token>)
    requires
        is_postfix(toks),
    ensures
        parse_text(spell(toks)) is Ok,
{
    assert(toks.take(0) =~= Seq::<Token>::empty());
    lemma_parse_rest(toks, 0, Seq::empty());
}

proof fn lemma_take_step(toks: Seq<Token>, k: int)
    requires
        0 <= k < toks.len(),
    ensures
        spell(toks.take(k + 1)) == spell(toks.take(k)) + seq![' '] + token_text(toks[k]),
        depth(toks.take(k + 1)) == depth(toks.take(k)) + match toks[k] {
            Token::Word(_) => 1,
            Token::Symbol(c) => 1 - arity(c),
        },
{
    assert(toks.take(k + 1).drop_last() =~= toks.take(k));
}

/// Each prefix of the tokens is spelled as a prefix of the whole text.
proof fn lemma_spell_prefix(toks: Seq<Token>, k: int)
    requires
        0 <= k <= toks.len(),
    ensures
        spell(toks.take(k)).len() <= spell(toks).len(),
        spell(toks).subrange(0, spell(toks.take(k)).len() as int) == spell(toks.take(k)),
    decreases toks.len() - k,
{
    if k == toks.len() {
        assert(toks.take(k) =~= toks);
        assert(spell(toks).subrange(0, spell(toks).len() as int) =~= spell(toks));
    } else {
        lemma_spell_prefix(toks, k + 1);
        lemma_take_step(toks, k);
        let s = spell(toks);
        let a = spell(toks.take(k));
        let b = spell(toks.take(k + 1));
        assert(s.subrange(0, a.len() as int) =~= b.subrange(0, a.len() as int));
        assert(b.subrange(0, a.len() as int) =~= a);
    }
}

/// A run of word characters from `i` that ends at `e` ends the word there.
proof fn lemma_word_end_at(s: Seq<char>, i: int, e: int)
    requires
        0 <= i <= e <= s.len(),
        forall|k: int| i <= k < e ==> is_word_char(#[trigger] s[k]),
        e == s.len() || !is_word_char(s[e]),
    ensures
        word_end(s, i) == e,
    decreases e - i,
{
    if i < e {
        lemma_word_end_at(s, i + 1, e);
    }
}

/// From the start of the `k`-th token on, with a stack as deep as the tokens
/// before it leave, the parse succeeds.
proof fn lemma_parse_rest(toks: Seq<Token>, k: int, stack: Seq<Term>)
    requires
        is_postfix(toks),
        0 <= k <= toks.len(),
        stack.len() == depth(toks.take(k)),
    ensures
        parse_from(spell(toks), spell(toks.take(k)).len() as int, stack) is Ok,
    decreases toks.len() - k,
{
    let s = spell(toks);
    let p = spell(toks.take(k)).len() as int;
    lemma_spell_prefix(toks, k);
    if k == toks.len() {
        assert(toks.take(k) =~= toks);
    } else {
        let t = toks[k];
        let text = token_text(t);
        lemma_take_step(toks, k);
        lemma_spell_prefix(toks, k + 1);
        let q = spell(toks.take(k + 1)).len() as int;
        assert(q == p + 1 + text.len());
        assert(s.subrange(0, q)[p] == s[p]);
        assert(s[p] == ' ');
        assert forall|j: int| 0 <= j < text.len() implies s[p + 1 + j] == text[j] by {
            assert(s.subrange(0, q)[p + 1 + j] == s[p + 1 + j]);
        }
        if k + 1 < toks.len() {
            lemma_take_step(toks, k + 1);
            lemma_spell_prefix(toks, k + 2);
            let r = spell(toks.take(k + 2)).len() as int;
            assert(s.subrange(0, r)[q] == s[q]);
            assert(s[q] == ' ');
        } else {
            assert(toks.take(k + 1) =~= toks);
        }
        assert(parse_from(s, p, stack) == parse_from(s, p + 1, stack));
        assert(is_token(t));
        let n = stack.len();
        match t {
            Token::Symbol(c) => {
                assert(s[p + 1] == c);
                assert(depth(toks.take(k)) >= arity(c));
                if c == '-' {
                    let next = stack.drop_last().push(
                        Term::UnaryOp(UnOp::Neg, Box::new(stack[n - 1])),
                    );
                    lemma_parse_rest(toks, k + 1, next);
                } else {
                    let next = stack.subrange(0, n - 2).push(
                        Term::BinOp(
                            binary_op(c)->0,
                            Box::new(stack[n - 2]),
                            Box::new(stack[n - 1]),
                        ),
                    );
                    lemma_parse_rest(toks, k + 1, next);
                }
            },
            Token::Word(w) => {
                assert(is_word_char(w[0]));
                assert forall|j: int| p + 2 <= j < q implies is_word_char(#[trigger] s[j]) by {
                    assert(s[p + 1 + (j - p - 1)] == w[j - p - 1]);
                    assert(is_ascii_letter(w[j - p - 1]) || is_ascii_digit(w[j - p - 1]) || w[j - p
                        - 1] == '_');
                }
                lemma_word_end_at(s, p + 2, q);
                assert(s.subrange(p + 1, q) =~= w);
                if is_ascii_digit(w[0]) {
                    let next = stack.push(Term::IntValue(literal_value(w)->0));
                    lemma_parse_rest(toks, k + 1, next);
                } else {
                    let next = stack.push(crate::parse::word_term(w));
                    lemma_parse_rest(toks, k + 1, next);
                }
            },
        }
    }
}

} // verus!
