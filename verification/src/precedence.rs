//! What the binding powers of the operators mean for chains of operators,
//! shown on integer operands.

use crate::node::{BinaryOperator, Tree, UnaryOperator};
use crate::parser::{
    climb, cover, expression, lexeme_at, lexical_faults, operand, primary, syntax, ParseError,
};
use crate::span::Span;
use crate::token::Lexeme;
use vstd::prelude::*;

verus! {

/// The tree of the integer `value` read at `span`.
pub open spec fn leaf(value: i64, span: Span) -> Tree {
    Tree::Integer { value, span }
}

/// The tree of `operator` between `lhs` and `rhs`, spanning both.
pub open spec fn binary(operator: BinaryOperator, lhs: Tree, rhs: Tree) -> Tree {
    Tree::BinaryOperation {
        operator,
        lhs: Box::new(lhs),
        rhs: Box::new(rhs),
        span: lhs.span().through(rhs.span()),
    }
}

/// The token that stands for the infix operator `operator`.
pub open spec fn infix_token(operator: BinaryOperator) -> Lexeme {
    match operator {
        BinaryOperator::Add => Lexeme::Plus,
        BinaryOperator::Subtract => Lexeme::Minus,
        BinaryOperator::Multiply => Lexeme::Multiply,
        BinaryOperator::Divide => Lexeme::Divide,
        BinaryOperator::Power => Lexeme::Power,
    }
}

/// An integer alone is an expression at every binding power: whatever
/// follows it that is no infix operator ends it.
proof fn lemma_single(tokens: Seq<(Lexeme, Span)>, end: Span, pos: int, min_power: nat)
    requires
        0 <= pos < tokens.len(),
        tokens[pos].0 is Integer,
        !(lexeme_at(tokens, pos + 1) matches Some(Lexeme::Name(_))),
    ensures
        operand(tokens, end, pos) == Ok::<(Tree, int), ParseError>(
            (leaf(tokens[pos].0->Integer_0, tokens[pos].1), pos + 1),
        ),
        expression(tokens, end, pos, min_power) == climb(
            tokens,
            end,
            pos,
            leaf(tokens[pos].0->Integer_0, tokens[pos].1),
            pos + 1,
            min_power,
        ),
{
}

/// Of two operators in a row, the second takes the operand between them
/// where it binds tighter than the first, or as tight and from the right;
/// else the first takes it: `a op b op' c` is `a op (b op' c)` in the one
/// case and `(a op b) op' c` in the other.
pub proof fn lemma_two_operators(
    a: i64,
    b: i64,
    c: i64,
    first: BinaryOperator,
    second: BinaryOperator,
    at: Seq<Span>,
    end: Span,
)
    requires
        at.len() == 5,
    ensures
        ({
            let tokens = seq![
                (Lexeme::Integer(a), at[0]),
                (infix_token(first), at[1]),
                (Lexeme::Integer(b), at[2]),
                (infix_token(second), at[3]),
                (Lexeme::Integer(c), at[4]),
            ];
            syntax(tokens, end) == Ok::<Tree, Seq<ParseError>>(
                if second.left_power() >= first.right_power() {
                    binary(first, leaf(a, at[0]), binary(second, leaf(b, at[2]), leaf(c, at[4])))
                } else {
                    binary(second, binary(first, leaf(a, at[0]), leaf(b, at[2])), leaf(c, at[4]))
                },
            )
        }),
{
    let tokens = seq![
        (Lexeme::Integer(a), at[0]),
        (infix_token(first), at[1]),
        (Lexeme::Integer(b), at[2]),
        (infix_token(second), at[3]),
        (Lexeme::Integer(c), at[4]),
    ];
    reveal_with_fuel(lexical_faults, 6);
    assert(lexical_faults(tokens).len() == 0) by {
        let t5 = tokens;
        let t4 = t5.drop_last();
        let t3 = t4.drop_last();
        let t2 = t3.drop_last();
        let t1 = t2.drop_last();
        let t0 = t1.drop_last();
        assert(t0.len() == 0);
    }
    lemma_single(tokens, end, 0, 0);
    lemma_single(tokens, end, 2, first.right_power());
    lemma_single(tokens, end, 4, second.right_power());
    let la = leaf(a, at[0]);
    let lb = leaf(b, at[2]);
    let lc = leaf(c, at[4]);
    // the last operand ends every expression that reaches it
    assert(climb(tokens, end, 4, lc, 5, second.right_power()) == Ok::<(Tree, int), ParseError>((lc, 5)));
    assert(expression(tokens, end, 4, second.right_power()) == Ok::<(Tree, int), ParseError>((lc, 5)));
    if second.left_power() >= first.right_power() {
        let inner = binary(second, lb, lc);
        assert(inner.span() == cover(tokens, 2, 5));
        assert(climb(tokens, end, 2, inner, 5, first.right_power()) == Ok::<(Tree, int), ParseError>(
            (inner, 5),
        ));
        assert(climb(tokens, end, 2, lb, 3, first.right_power()) == Ok::<(Tree, int), ParseError>(
            (inner, 5),
        ));
        assert(expression(tokens, end, 2, first.right_power()) == Ok::<(Tree, int), ParseError>(
            (inner, 5),
        ));
        let outer = binary(first, la, inner);
        assert(climb(tokens, end, 0, outer, 5, 0) == Ok::<(Tree, int), ParseError>((outer, 5)));
        assert(climb(tokens, end, 0, la, 1, 0) == Ok::<(Tree, int), ParseError>((outer, 5)));
    } else {
        assert(climb(tokens, end, 2, lb, 3, first.right_power()) == Ok::<(Tree, int), ParseError>((lb, 3)));
        assert(expression(tokens, end, 2, first.right_power()) == Ok::<(Tree, int), ParseError>((lb, 3)));
        let inner = binary(first, la, lb);
        assert(inner.span() == cover(tokens, 0, 3));
        let outer = binary(second, inner, lc);
        assert(expression(tokens, end, 4, second.right_power()) == Ok::<(Tree, int), ParseError>((lc, 5)));
        assert(climb(tokens, end, 0, outer, 5, 0) == Ok::<(Tree, int), ParseError>((outer, 5)));
        assert(climb(tokens, end, 0, inner, 3, 0) == Ok::<(Tree, int), ParseError>((outer, 5)));
        assert(climb(tokens, end, 0, la, 1, 0) == Ok::<(Tree, int), ParseError>((outer, 5)));
    }
}

/// The token that stands for the prefix operator `operator`.
pub open spec fn prefix_token(operator: UnaryOperator) -> Lexeme {
    match operator {
        UnaryOperator::Plus => Lexeme::Plus,
        UnaryOperator::Negate => Lexeme::Minus,
    }
}

/// The tree of the prefix operator `operator`, read at `at`, in front of
/// `inner`, spanning both.
pub open spec fn unary(operator: UnaryOperator, at: Span, inner: Tree) -> Tree {
    Tree::UnaryOperation { operator, operand: Box::new(inner), span: at.through(inner.span()) }
}

/// A prefix operator takes what follows it up to the first infix operator
/// that binds less tightly than the prefix operators do: `- a op b` is
/// `-(a op b)` for the power operator and `(-a) op b` for every other.
pub proof fn lemma_prefix_then_infix(
    a: i64,
    b: i64,
    prefix: UnaryOperator,
    infix: BinaryOperator,
    at: Seq<Span>,
    end: Span,
)
    requires
        at.len() == 4,
    ensures
        ({
            let tokens = seq![
                (prefix_token(prefix), at[0]),
                (Lexeme::Integer(a), at[1]),
                (infix_token(infix), at[2]),
                (Lexeme::Integer(b), at[3]),
            ];
            syntax(tokens, end) == Ok::<Tree, Seq<ParseError>>(
                if infix.left_power() >= UnaryOperator::power() {
                    unary(prefix, at[0], binary(infix, leaf(a, at[1]), leaf(b, at[3])))
                } else {
                    Tree::BinaryOperation {
                        operator: infix,
                        lhs: Box::new(unary(prefix, at[0], leaf(a, at[1]))),
                        rhs: Box::new(leaf(b, at[3])),
                        span: at[0].through(at[3]),
                    }
                },
            )
        }),
{
    let tokens = seq![
        (prefix_token(prefix), at[0]),
        (Lexeme::Integer(a), at[1]),
        (infix_token(infix), at[2]),
        (Lexeme::Integer(b), at[3]),
    ];
    reveal_with_fuel(lexical_faults, 5);
    assert(lexical_faults(tokens).len() == 0) by {
        let t3 = tokens.drop_last();
        let t2 = t3.drop_last();
        let t1 = t2.drop_last();
        let t0 = t1.drop_last();
        assert(t0.len() == 0);
    }
    let la = leaf(a, at[1]);
    let lb = leaf(b, at[3]);
    lemma_single(tokens, end, 1, UnaryOperator::power());
    lemma_single(tokens, end, 3, infix.right_power());
    assert(climb(tokens, end, 3, lb, 4, infix.right_power()) == Ok::<(Tree, int), ParseError>(
        (lb, 4),
    ));
    if infix.left_power() >= UnaryOperator::power() {
        let inner = binary(infix, la, lb);
        assert(inner.span() == cover(tokens, 1, 4));
        assert(climb(tokens, end, 1, inner, 4, UnaryOperator::power()) == Ok::<
            (Tree, int),
            ParseError,
        >((inner, 4)));
        assert(climb(tokens, end, 1, la, 2, UnaryOperator::power()) == Ok::<
            (Tree, int),
            ParseError,
        >((inner, 4)));
        let whole = unary(prefix, at[0], inner);
        assert(operand(tokens, end, 0) == Ok::<(Tree, int), ParseError>((whole, 4)));
        assert(climb(tokens, end, 0, whole, 4, 0) == Ok::<(Tree, int), ParseError>((whole, 4)));
    } else {
        assert(climb(tokens, end, 1, la, 2, UnaryOperator::power()) == Ok::<
            (Tree, int),
            ParseError,
        >((la, 2)));
        let signed = unary(prefix, at[0], la);
        assert(operand(tokens, end, 0) == Ok::<(Tree, int), ParseError>((signed, 2)));
        let whole = Tree::BinaryOperation {
            operator: infix,
            lhs: Box::new(signed),
            rhs: Box::new(lb),
            span: at[0].through(at[3]),
        };
        assert(climb(tokens, end, 0, whole, 4, 0) == Ok::<(Tree, int), ParseError>((whole, 4)));
        assert(climb(tokens, end, 0, signed, 2, 0) == Ok::<(Tree, int), ParseError>((whole, 4)));
    }
}

/// A prefix operator may open the right operand of every infix operator:
/// `a op - b` is `a op (-b)`.
pub proof fn lemma_infix_then_prefix(
    a: i64,
    b: i64,
    infix: BinaryOperator,
    prefix: UnaryOperator,
    at: Seq<Span>,
    end: Span,
)
    requires
        at.len() == 4,
    ensures
        ({
            let tokens = seq![
                (Lexeme::Integer(a), at[0]),
                (infix_token(infix), at[1]),
                (prefix_token(prefix), at[2]),
                (Lexeme::Integer(b), at[3]),
            ];
            syntax(tokens, end) == Ok::<Tree, Seq<ParseError>>(
                binary(infix, leaf(a, at[0]), unary(prefix, at[2], leaf(b, at[3]))),
            )
        }),
{
    let tokens = seq![
        (Lexeme::Integer(a), at[0]),
        (infix_token(infix), at[1]),
        (prefix_token(prefix), at[2]),
        (Lexeme::Integer(b), at[3]),
    ];
    reveal_with_fuel(lexical_faults, 5);
    assert(lexical_faults(tokens).len() == 0) by {
        let t3 = tokens.drop_last();
        let t2 = t3.drop_last();
        let t1 = t2.drop_last();
        let t0 = t1.drop_last();
        assert(t0.len() == 0);
    }
    let la = leaf(a, at[0]);
    let lb = leaf(b, at[3]);
    lemma_single(tokens, end, 0, 0);
    lemma_single(tokens, end, 3, UnaryOperator::power());
    assert(climb(tokens, end, 3, lb, 4, UnaryOperator::power()) == Ok::<(Tree, int), ParseError>(
        (lb, 4),
    ));
    let signed = unary(prefix, at[2], lb);
    assert(operand(tokens, end, 2) == Ok::<(Tree, int), ParseError>((signed, 4)));
    assert(climb(tokens, end, 2, signed, 4, infix.right_power()) == Ok::<(Tree, int), ParseError>(
        (signed, 4),
    ));
    assert(expression(tokens, end, 2, infix.right_power()) == Ok::<(Tree, int), ParseError>(
        (signed, 4),
    ));
    let whole = binary(infix, la, signed);
    assert(climb(tokens, end, 0, whole, 4, 0) == Ok::<(Tree, int), ParseError>((whole, 4)));
    assert(climb(tokens, end, 0, la, 1, 0) == Ok::<(Tree, int), ParseError>((whole, 4)));
}

/// Parentheses override the binding powers: `a op (b op' c)` is the tree of
/// `op` with the group for its right operand, whatever the two operators
/// are. The group spans its parentheses.
pub proof fn lemma_parentheses_override(
    a: i64,
    b: i64,
    c: i64,
    first: BinaryOperator,
    second: BinaryOperator,
    at: Seq<Span>,
    end: Span,
)
    requires
        at.len() == 7,
    ensures
        ({
            let tokens = seq![
                (Lexeme::Integer(a), at[0]),
                (infix_token(first), at[1]),
                (Lexeme::LParen, at[2]),
                (Lexeme::Integer(b), at[3]),
                (infix_token(second), at[4]),
                (Lexeme::Integer(c), at[5]),
                (Lexeme::RParen, at[6]),
            ];
            syntax(tokens, end) == Ok::<Tree, Seq<ParseError>>(
                binary(
                    first,
                    leaf(a, at[0]),
                    binary(second, leaf(b, at[3]), leaf(c, at[5])).with_span(at[2].through(at[6])),
                ),
            )
        }),
{
    let tokens = seq![
        (Lexeme::Integer(a), at[0]),
        (infix_token(first), at[1]),
        (Lexeme::LParen, at[2]),
        (Lexeme::Integer(b), at[3]),
        (infix_token(second), at[4]),
        (Lexeme::Integer(c), at[5]),
        (Lexeme::RParen, at[6]),
    ];
    reveal_with_fuel(lexical_faults, 8);
    assert(lexical_faults(tokens).len() == 0) by {
        let t6 = tokens.drop_last();
        let t5 = t6.drop_last();
        let t4 = t5.drop_last();
        let t3 = t4.drop_last();
        let t2 = t3.drop_last();
        let t1 = t2.drop_last();
        let t0 = t1.drop_last();
        assert(t0.len() == 0);
    }
    let la = leaf(a, at[0]);
    let lb = leaf(b, at[3]);
    let lc = leaf(c, at[5]);
    lemma_single(tokens, end, 0, 0);
    lemma_single(tokens, end, 3, 0);
    lemma_single(tokens, end, 5, second.right_power());
    assert(climb(tokens, end, 5, lc, 6, second.right_power()) == Ok::<(Tree, int), ParseError>(
        (lc, 6),
    ));
    let inner = binary(second, lb, lc);
    assert(climb(tokens, end, 3, inner, 6, 0) == Ok::<(Tree, int), ParseError>((inner, 6)));
    assert(climb(tokens, end, 3, lb, 4, 0) == Ok::<(Tree, int), ParseError>((inner, 6)));
    assert(expression(tokens, end, 3, 0) == Ok::<(Tree, int), ParseError>((inner, 6)));
    let group = inner.with_span(at[2].through(at[6]));
    assert(primary(tokens, end, 2) == Ok::<(Tree, int), ParseError>((group, 7)));
    assert(operand(tokens, end, 2) == Ok::<(Tree, int), ParseError>((group, 7)));
    assert(climb(tokens, end, 2, group, 7, first.right_power()) == Ok::<(Tree, int), ParseError>(
        (group, 7),
    ));
    assert(expression(tokens, end, 2, first.right_power()) == Ok::<(Tree, int), ParseError>(
        (group, 7),
    ));
    let whole = binary(first, la, group);
    assert(climb(tokens, end, 0, whole, 7, 0) == Ok::<(Tree, int), ParseError>((whole, 7)));
    assert(climb(tokens, end, 0, la, 1, 0) == Ok::<(Tree, int), ParseError>((whole, 7)));
}

} // verus!
