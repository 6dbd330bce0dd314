//! The grammar of the expression language and its parser.
//!
//! The grammar is stated as functions on a sequence of tokens: each takes
//! the position at which a phrase begins, and gives the tree of the phrase
//! with the position behind it, or the error that stops the phrase.
//!
//! | level | operators          | fixity | grouping |
//! |-------|--------------------|--------|----------|
//! | 4     | `^`                | infix  | right    |
//! | 3     | `+` `-`            | prefix |          |
//! | 2     | `*` `/`            | infix  | left     |
//! | 1     | `+` `-`            | infix  | left     |

use crate::decimal::{Decimal, Number};
use crate::lexer::{first_mark, last_mark, lemma_tokens_reach, lex, span_of, tokenize};
use crate::node::{lemma_call_view, trees, BinaryOperator, ParseNode, Tree, UnaryOperator};
use crate::span::Span;
use crate::text::{byte_offset, lemma_byte_offset_monotonic};
use crate::token::{lexemes, Lexeme, LexingError, Token};
use vstd::prelude::*;
use vstd::string::*;

verus! {

/// What is wrong at the place of a [`ParseError`].
#[derive(Clone, Copy, Debug, PartialEq, Eq, Structural, Hash)]
pub enum ParseErrorKind {
    /// The text at this place is no token.
    Lexical(LexingError),
    /// An operand should begin here: a number, a quantity, an identifier, a
    /// call, a prefix operator or an opening parenthesis.
    ExpectedExpression,
    /// A segment of an identifier should follow the dot.
    ExpectedName,
    /// A closing parenthesis should end the group or the argument list
    /// here; in an argument list a comma may stand here too.
    ExpectedClosing,
    /// The expression is complete and the input should end here.
    ExpectedEnd,
}

/// One fault in the source text.
#[derive(Clone, Copy, Debug, PartialEq, Eq, Structural, Hash)]
pub struct ParseError {
    /// What is wrong.
    pub kind: ParseErrorKind,
    /// The offending token, or the empty span at the end of the text where
    /// the text ends too early.
    pub span: Span,
}

impl ParseErrorKind {
    /// What the fault is, in words.
    pub open spec fn words(self) -> Seq<char> {
        match self {
            ParseErrorKind::Lexical(LexingError::InvalidToken) => "invalid token"@,
            ParseErrorKind::Lexical(LexingError::ParseIntError) =>
                "integer literal without a value in 64 bits"@,
            ParseErrorKind::Lexical(LexingError::ParseFloatError) =>
                "numeric literal without a value that can be held"@,
            ParseErrorKind::ExpectedExpression => "expected an expression"@,
            ParseErrorKind::ExpectedName => "expected a name"@,
            ParseErrorKind::ExpectedClosing => "expected a closing parenthesis"@,
            ParseErrorKind::ExpectedEnd => "expected end of input"@,
        }
    }
}

impl ParseError {
    /// What the fault is, in words.
    pub fn message(&self) -> (text: String)
        ensures
            text@ == self.kind.words(),
    {
        match self.kind {
            ParseErrorKind::Lexical(LexingError::InvalidToken) => "invalid token".to_owned(),
            ParseErrorKind::Lexical(LexingError::ParseIntError) =>
                "integer literal without a value in 64 bits".to_owned(),
            ParseErrorKind::Lexical(LexingError::ParseFloatError) =>
                "numeric literal without a value that can be held".to_owned(),
            ParseErrorKind::ExpectedExpression => "expected an expression".to_owned(),
            ParseErrorKind::ExpectedName => "expected a name".to_owned(),
            ParseErrorKind::ExpectedClosing => "expected a closing parenthesis".to_owned(),
            ParseErrorKind::ExpectedEnd => "expected end of input".to_owned(),
        }
    }
}

/// The token at `pos`, if there is one.
pub open spec fn lexeme_at(tokens: Seq<(Lexeme, Span)>, pos: int) -> Option<Lexeme> {
    if 0 <= pos < tokens.len() {
        Some(tokens[pos].0)
    } else {
        None
    }
}

/// The span of the token at `pos`, or `end` where the tokens have run out.
pub open spec fn span_at(tokens: Seq<(Lexeme, Span)>, end: Span, pos: int) -> Span {
    if 0 <= pos < tokens.len() {
        tokens[pos].1
    } else {
        end
    }
}

/// The fault of kind `kind` at the token at `pos`.
pub open spec fn fault(tokens: Seq<(Lexeme, Span)>, end: Span, pos: int, kind: ParseErrorKind)
    -> ParseError {
    ParseError { kind, span: span_at(tokens, end, pos) }
}

/// The stretch of source text from the first byte of the token at `first`
/// to the last byte of the token before `next`.
pub open spec fn cover(tokens: Seq<(Lexeme, Span)>, first: int, next: int) -> Span {
    tokens[first].1.through(tokens[next - 1].1)
}

/// The infix operator that a token stands for.
pub open spec fn infix_operator(lexeme: Option<Lexeme>) -> Option<BinaryOperator> {
    match lexeme {
        Some(Lexeme::Plus) => Some(BinaryOperator::Add),
        Some(Lexeme::Minus) => Some(BinaryOperator::Subtract),
        Some(Lexeme::Multiply) => Some(BinaryOperator::Multiply),
        Some(Lexeme::Divide) => Some(BinaryOperator::Divide),
        Some(Lexeme::Power) => Some(BinaryOperator::Power),
        _ => None,
    }
}

/// The prefix operator that a token stands for.
pub open spec fn prefix_operator(lexeme: Option<Lexeme>) -> Option<UnaryOperator> {
    match lexeme {
        Some(Lexeme::Plus) => Some(UnaryOperator::Plus),
        Some(Lexeme::Minus) => Some(UnaryOperator::Negate),
        _ => None,
    }
}

/// An identifier: names separated by single dots, joined into one string.
/// A dot must be followed by a name.
pub open spec fn dotted_name(tokens: Seq<(Lexeme, Span)>, end: Span, pos: int) -> Result<
    (Seq<char>, int),
    ParseError,
>
    decreases tokens.len() - pos,
{
    match lexeme_at(tokens, pos) {
        Some(Lexeme::Name(first)) => {
            if lexeme_at(tokens, pos + 1) == Some(Lexeme::Dot) {
                match dotted_name(tokens, end, pos + 2) {
                    Ok((rest, next)) => Ok((first + seq!['.'] + rest, next)),
                    Err(e) => Err(e),
                }
            } else {
                Ok((first, pos + 1))
            }
        },
        _ => Err(fault(tokens, end, pos, ParseErrorKind::ExpectedName)),
    }
}

/// An identifier takes at least one token and ends within the tokens.
pub proof fn lemma_dotted_name_advances(tokens: Seq<(Lexeme, Span)>, end: Span, pos: int)
    ensures
        dotted_name(tokens, end, pos) matches Ok((_, next)) ==> pos < next <= tokens.len(),
    decreases tokens.len() - pos,
{
    if lexeme_at(tokens, pos) is Some && lexeme_at(tokens, pos + 1) == Some(Lexeme::Dot) {
        lemma_dotted_name_advances(tokens, end, pos + 2);
    }
}

/// An operand without a prefix operator: a quantity, a number, a call, an
/// identifier, or an expression in parentheses. A number followed by a name
/// is a quantity; an identifier followed by an opening parenthesis is a call.
pub open spec fn primary(tokens: Seq<(Lexeme, Span)>, end: Span, pos: int) -> Result<
    (Tree, int),
    ParseError,
>
    decreases tokens.len() - pos, 0int,
{
    match lexeme_at(tokens, pos) {
        Some(Lexeme::Integer(value)) => match lexeme_at(tokens, pos + 1) {
            Some(Lexeme::Name(unit)) => Ok(
                (
                    Tree::Quantity {
                        value: Number::of_integer(value as int),
                        unit,
                        span: cover(tokens, pos, pos + 2),
                    },
                    pos + 2,
                ),
            ),
            _ => Ok((Tree::Integer { value, span: cover(tokens, pos, pos + 1) }, pos + 1)),
        },
        Some(Lexeme::Float(value)) => match lexeme_at(tokens, pos + 1) {
            Some(Lexeme::Name(unit)) => Ok(
                (Tree::Quantity { value, unit, span: cover(tokens, pos, pos + 2) }, pos + 2),
            ),
            _ => Ok((Tree::Float { value, span: cover(tokens, pos, pos + 1) }, pos + 1)),
        },
        Some(Lexeme::Name(_)) => match dotted_name(tokens, end, pos) {
            Err(e) => Err(e),
            Ok((name, next)) => {
                if lexeme_at(tokens, next) == Some(Lexeme::LParen) {
                    proof {
                        lemma_dotted_name_advances(tokens, end, pos);
                    }
                    match arguments(tokens, end, next + 1, Seq::empty()) {
                        Err(e) => Err(e),
                        Ok((args, after)) => Ok(
                            (Tree::Call { name, args, span: cover(tokens, pos, after) }, after),
                        ),
                    }
                } else {
                    Ok((Tree::Identifier { name, span: cover(tokens, pos, next) }, next))
                }
            },
        },
        Some(Lexeme::LParen) => match expression(tokens, end, pos + 1, 0) {
            Err(e) => Err(e),
            Ok((inner, next)) => {
                if lexeme_at(tokens, next) == Some(Lexeme::RParen) {
                    Ok((inner.with_span(cover(tokens, pos, next + 1)), next + 1))
                } else {
                    Err(fault(tokens, end, next, ParseErrorKind::ExpectedClosing))
                }
            },
        },
        _ => Err(fault(tokens, end, pos, ParseErrorKind::ExpectedExpression)),
    }
}

/// The rest of an argument list, from behind the opening parenthesis or a
/// comma: expressions separated by commas, then a closing parenthesis. A
/// comma may stand before the closing parenthesis. `done` holds the
/// arguments read so far.
pub open spec fn arguments(
    tokens: Seq<(Lexeme, Span)>,
    end: Span,
    pos: int,
    done: Seq<Tree>,
) -> Result<(Seq<Tree>, int), ParseError>
    decreases tokens.len() - pos, 3int,
{
    if lexeme_at(tokens, pos) == Some(Lexeme::RParen) {
        Ok((done, pos + 1))
    } else {
        match expression(tokens, end, pos, 0) {
            Err(e) => Err(e),
            Ok((argument, next)) => {
                if lexeme_at(tokens, next) == Some(Lexeme::Comma) && pos < next {
                    arguments(tokens, end, next + 1, done.push(argument))
                } else if lexeme_at(tokens, next) == Some(Lexeme::RParen) {
                    Ok((done.push(argument), next + 1))
                } else {
                    Err(fault(tokens, end, next, ParseErrorKind::ExpectedClosing))
                }
            },
        }
    }
}

/// An operand: prefix operators, then a primary. The operand of a prefix
/// operator reaches over every operator that binds tighter than the prefix
/// operators do.
pub open spec fn operand(tokens: Seq<(Lexeme, Span)>, end: Span, pos: int) -> Result<
    (Tree, int),
    ParseError,
>
    decreases tokens.len() - pos, 1int,
{
    match prefix_operator(lexeme_at(tokens, pos)) {
        Some(operator) => match expression(tokens, end, pos + 1, UnaryOperator::power()) {
            Err(e) => Err(e),
            Ok((inner, next)) => Ok(
                (
                    Tree::UnaryOperation {
                        operator,
                        operand: Box::new(inner),
                        span: cover(tokens, pos, next),
                    },
                    next,
                ),
            ),
        },
        None => primary(tokens, end, pos),
    }
}

/// An expression whose infix operators all hold their left operand with at
/// least `min_power`: an operand, then as many such operators, each with its
/// right operand, as follow.
///
/// The test that the operand has moved on makes the definition well
/// founded. It never fails: see [`lemma_expression_well_placed`]. The same
/// holds of the like tests in [`climb`] and [`arguments`].
pub open spec fn expression(tokens: Seq<(Lexeme, Span)>, end: Span, pos: int, min_power: nat)
    -> Result<(Tree, int), ParseError>
    decreases tokens.len() - pos, 2int,
{
    match operand(tokens, end, pos) {
        Err(e) => Err(e),
        Ok((first, next)) => {
            if pos < next <= tokens.len() {
                climb(tokens, end, pos, first, next, min_power)
            } else {
                Err(fault(tokens, end, pos, ParseErrorKind::ExpectedExpression))
            }
        },
    }
}

/// The continuation of the expression that began at `start` and has so far
/// been read into `lhs`, up to `pos`: an infix operator that holds `lhs`
/// with at least `min_power` takes it as its left operand, and the result is
/// continued in the same way; any other token ends the expression.
pub open spec fn climb(
    tokens: Seq<(Lexeme, Span)>,
    end: Span,
    start: int,
    lhs: Tree,
    pos: int,
    min_power: nat,
) -> Result<(Tree, int), ParseError>
    decreases tokens.len() - pos, 0int,
{
    match infix_operator(lexeme_at(tokens, pos)) {
        None => Ok((lhs, pos)),
        Some(operator) => {
            if operator.left_power() < min_power {
                Ok((lhs, pos))
            } else {
                match expression(tokens, end, pos + 1, operator.right_power()) {
                    Err(e) => Err(e),
                    Ok((rhs, next)) => {
                        if pos < next <= tokens.len() {
                            climb(
                                tokens,
                                end,
                                start,
                                Tree::BinaryOperation {
                                    operator,
                                    lhs: Box::new(lhs),
                                    rhs: Box::new(rhs),
                                    span: cover(tokens, start, next),
                                },
                                next,
                                min_power,
                            )
                        } else {
                            Err(fault(tokens, end, pos, ParseErrorKind::ExpectedExpression))
                        }
                    },
                }
            }
        },
    }
}

/// One fault for each stretch of text that the lexer could not read, in the
/// order of the text.
pub open spec fn lexical_faults(tokens: Seq<(Lexeme, Span)>) -> Seq<ParseError>
    decreases tokens.len(),
{
    if tokens.len() == 0 {
        Seq::empty()
    } else {
        let before = lexical_faults(tokens.drop_last());
        match tokens.last().0 {
            Lexeme::Error(e) => before.push(
                ParseError { kind: ParseErrorKind::Lexical(e), span: tokens.last().1 },
            ),
            _ => before,
        }
    }
}

/// The tree of a sequence of tokens, or its faults. Where the lexer could
/// not read some of the text, the faults are those stretches, all of them.
/// Otherwise the tokens must be one expression from the first to the last,
/// and the one fault is the first token that cannot continue an expression;
/// `end` is the span that stands for the end of the text.
pub open spec fn syntax(tokens: Seq<(Lexeme, Span)>, end: Span) -> Result<Tree, Seq<ParseError>> {
    if lexical_faults(tokens).len() > 0 {
        Err(lexical_faults(tokens))
    } else {
        match expression(tokens, end, 0, 0) {
            Err(e) => Err(seq![e]),
            Ok((tree, next)) => {
                if next == tokens.len() {
                    Ok(tree)
                } else {
                    Err(seq![fault(tokens, end, next, ParseErrorKind::ExpectedEnd)])
                }
            },
        }
    }
}

/// Whether a phrase that was read from `pos` on, if one was, takes at least
/// one token, ends within the tokens, and has a tree whose span reaches from
/// the first byte of its first token to the last byte of its last token.
pub open spec fn well_placed(
    tokens: Seq<(Lexeme, Span)>,
    pos: int,
    outcome: Result<(Tree, int), ParseError>,
) -> bool {
    outcome matches Ok((tree, next)) ==> pos < next <= tokens.len() && tree.span() == cover(
        tokens,
        pos,
        next,
    )
}

/// A primary takes at least one token, and its tree spans its tokens, the
/// parentheses round a group included.
pub proof fn lemma_primary_well_placed(tokens: Seq<(Lexeme, Span)>, end: Span, pos: int)
    ensures
        well_placed(tokens, pos, primary(tokens, end, pos)),
    decreases tokens.len() - pos, 0int,
{
    match lexeme_at(tokens, pos) {
        Some(Lexeme::Name(_)) => {
            lemma_dotted_name_advances(tokens, end, pos);
            match dotted_name(tokens, end, pos) {
                Ok((name, next)) => {
                    if lexeme_at(tokens, next) == Some(Lexeme::LParen) {
                        lemma_arguments_advance(tokens, end, next + 1, Seq::empty());
                    }
                },
                Err(_) => {},
            }
        },
        Some(Lexeme::LParen) => {
            lemma_expression_well_placed(tokens, end, pos + 1, 0);
        },
        _ => {},
    }
}

/// An argument list ends within the tokens, behind its closing parenthesis.
pub proof fn lemma_arguments_advance(
    tokens: Seq<(Lexeme, Span)>,
    end: Span,
    pos: int,
    done: Seq<Tree>,
)
    ensures
        arguments(tokens, end, pos, done) matches Ok((_, next)) ==> pos < next <= tokens.len(),
    decreases tokens.len() - pos, 3int,
{
    if lexeme_at(tokens, pos) != Some(Lexeme::RParen) {
        lemma_expression_well_placed(tokens, end, pos, 0);
        match expression(tokens, end, pos, 0) {
            Ok((argument, next)) => {
                if lexeme_at(tokens, next) == Some(Lexeme::Comma) {
                    lemma_arguments_advance(tokens, end, next + 1, done.push(argument));
                }
            },
            Err(_) => {},
        }
    }
}

/// An operand takes at least one token, and its tree spans its tokens, the
/// prefix operators included.
pub proof fn lemma_operand_well_placed(tokens: Seq<(Lexeme, Span)>, end: Span, pos: int)
    ensures
        well_placed(tokens, pos, operand(tokens, end, pos)),
    decreases tokens.len() - pos, 1int,
{
    match prefix_operator(lexeme_at(tokens, pos)) {
        Some(_) => {
            lemma_expression_well_placed(tokens, end, pos + 1, UnaryOperator::power());
        },
        None => {
            lemma_primary_well_placed(tokens, end, pos);
        },
    }
}

/// An expression takes at least one token, and its tree spans its tokens.
/// So the test for progress in [`expression`], [`climb`] and [`arguments`]
/// never fails.
pub proof fn lemma_expression_well_placed(
    tokens: Seq<(Lexeme, Span)>,
    end: Span,
    pos: int,
    min_power: nat,
)
    ensures
        well_placed(tokens, pos, expression(tokens, end, pos, min_power)),
    decreases tokens.len() - pos, 2int,
{
    lemma_operand_well_placed(tokens, end, pos);
    match operand(tokens, end, pos) {
        Ok((first, next)) => {
            lemma_climb_well_placed(tokens, end, pos, first, next, min_power);
        },
        Err(_) => {},
    }
}

/// The continuation of an expression whose tree spans its tokens so far
/// gives a tree that spans the tokens of the whole.
pub proof fn lemma_climb_well_placed(
    tokens: Seq<(Lexeme, Span)>,
    end: Span,
    start: int,
    lhs: Tree,
    pos: int,
    min_power: nat,
)
    requires
        start < pos <= tokens.len(),
        lhs.span() == cover(tokens, start, pos),
    ensures
        well_placed(tokens, start, climb(tokens, end, start, lhs, pos, min_power)),
        climb(tokens, end, start, lhs, pos, min_power) matches Ok((_, next)) ==> pos <= next,
    decreases tokens.len() - pos, 0int,
{
    match infix_operator(lexeme_at(tokens, pos)) {
        None => {},
        Some(operator) => {
            if operator.left_power() >= min_power {
                lemma_expression_well_placed(tokens, end, pos + 1, operator.right_power());
                match expression(tokens, end, pos + 1, operator.right_power()) {
                    Ok((rhs, next)) => {
                        let joined = Tree::BinaryOperation {
                            operator,
                            lhs: Box::new(lhs),
                            rhs: Box::new(rhs),
                            span: cover(tokens, start, next),
                        };
                        lemma_climb_well_placed(tokens, end, start, joined, next, min_power);
                    },
                    Err(_) => {},
                }
            }
        },
    }
}

/// The tree of a sequence of tokens spans them all: from the first byte of
/// the first token to the last byte of the last.
pub proof fn lemma_syntax_spans_all(tokens: Seq<(Lexeme, Span)>, end: Span)
    ensures
        syntax(tokens, end) matches Ok(tree) ==> tokens.len() > 0 && tree.span() == cover(
            tokens,
            0,
            tokens.len() as int,
        ),
{
    lemma_expression_well_placed(tokens, end, 0, 0);
}

/// Whether the outcome of reading a phrase is the one that the grammar
/// gives.
pub open spec fn agrees(
    outcome: Result<(ParseNode, usize), ParseError>,
    expected: Result<(Tree, int), ParseError>,
) -> bool {
    match (outcome, expected) {
        (Ok((node, next)), Ok((tree, n))) => node@ == tree && next == n,
        (Err(e), Err(f)) => e == f,
        _ => false,
    }
}

/// Whether the outcome of parsing is the one that the grammar gives.
pub open spec fn conforms(
    outcome: Result<ParseNode, Vec<ParseError>>,
    expected: Result<Tree, Seq<ParseError>>,
) -> bool {
    match (outcome, expected) {
        (Ok(node), Ok(tree)) => node@ == tree,
        (Err(e), Err(f)) => e@ == f,
        _ => false,
    }
}

/// The token at `pos`, if there is one.
fn peek(tokens: &Vec<(Token, Span)>, pos: usize) -> (r: Option<&Token>)
    ensures
        r is Some <==> pos < tokens.len(),
        r matches Some(t) ==> *t == tokens[pos as int].0,
        lexeme_at(lexemes(tokens@), pos as int) == (match r {
            Some(t) => Some(t@),
            None => None,
        }),
{
    if pos < tokens.len() {
        Some(&tokens[pos].0)
    } else {
        None
    }
}

/// Whether the token at `pos` is the punctuation `mark`.
fn is_mark(tokens: &Vec<(Token, Span)>, pos: usize, mark: &Token) -> (r: bool)
    requires
        mark@ == Lexeme::Dot || mark@ == Lexeme::LParen || mark@ == Lexeme::RParen || mark@
            == Lexeme::Comma,
    ensures
        r == (lexeme_at(lexemes(tokens@), pos as int) == Some(mark@)),
{
    match (peek(tokens, pos), mark) {
        (Some(Token::Dot), Token::Dot) => true,
        (Some(Token::LParen), Token::LParen) => true,
        (Some(Token::RParen), Token::RParen) => true,
        (Some(Token::Comma), Token::Comma) => true,
        _ => false,
    }
}

/// The infix operator that the token at `pos` stands for.
fn infix_at(tokens: &Vec<(Token, Span)>, pos: usize) -> (r: Option<BinaryOperator>)
    ensures
        r == infix_operator(lexeme_at(lexemes(tokens@), pos as int)),
{
    match peek(tokens, pos) {
        Some(Token::Plus) => Some(BinaryOperator::Add),
        Some(Token::Minus) => Some(BinaryOperator::Subtract),
        Some(Token::Multiply) => Some(BinaryOperator::Multiply),
        Some(Token::Divide) => Some(BinaryOperator::Divide),
        Some(Token::Power) => Some(BinaryOperator::Power),
        _ => None,
    }
}

/// The prefix operator that the token at `pos` stands for.
fn prefix_at(tokens: &Vec<(Token, Span)>, pos: usize) -> (r: Option<UnaryOperator>)
    ensures
        r == prefix_operator(lexeme_at(lexemes(tokens@), pos as int)),
{
    match peek(tokens, pos) {
        Some(Token::Plus) => Some(UnaryOperator::Plus),
        Some(Token::Minus) => Some(UnaryOperator::Negate),
        _ => None,
    }
}

/// The fault of kind `kind` at the token at `pos`.
fn fault_at(tokens: &Vec<(Token, Span)>, end: Span, pos: usize, kind: ParseErrorKind) -> (r:
    ParseError)
    ensures
        r == fault(lexemes(tokens@), end, pos as int, kind),
{
    if pos < tokens.len() {
        ParseError { kind, span: tokens[pos].1 }
    } else {
        ParseError { kind, span: end }
    }
}

/// The stretch of source text from the first byte of the token at `first`
/// to the last byte of the token before `next`.
fn covering(tokens: &Vec<(Token, Span)>, first: usize, next: usize) -> (r: Span)
    requires
        first < next <= tokens.len(),
    ensures
        r == cover(lexemes(tokens@), first as int, next as int),
{
    tokens[first].1.join(tokens[next - 1].1)
}

/// Reads an identifier: names separated by single dots.
fn parse_name(tokens: &Vec<(Token, Span)>, end: Span, pos: usize) -> (r: Result<
    (String, usize),
    ParseError,
>)
    requires
        pos <= tokens.len(),
    ensures
        match (r, dotted_name(lexemes(tokens@), end, pos as int)) {
            (Ok((name, next)), Ok((n, at))) => name@ == n && next == at,
            (Err(e), Err(f)) => e == f,
            _ => false,
        },
        r matches Ok((_, next)) ==> pos < next <= tokens.len(),
    decreases tokens.len() - pos,
{
    match peek(tokens, pos) {
        Some(Token::Name(first)) => {
            if is_mark(tokens, pos + 1, &Token::Dot) {
                match parse_name(tokens, end, pos + 2) {
                    Ok((rest, next)) => {
                        let mut name = first.clone();
                        proof {
                            reveal_strlit(".");
                            assert("."@ =~= seq!['.']);
                        }
                        name.append(".");
                        name.append(rest.as_str());
                        Ok((name, next))
                    },
                    Err(e) => Err(e),
                }
            } else {
                Ok((first.clone(), pos + 1))
            }
        },
        _ => Err(fault_at(tokens, end, pos, ParseErrorKind::ExpectedName)),
    }
}

/// Reads an operand without a prefix operator.
fn parse_primary(tokens: &Vec<(Token, Span)>, end: Span, pos: usize) -> (r: Result<
    (ParseNode, usize),
    ParseError,
>)
    requires
        pos <= tokens.len(),
    ensures
        agrees(r, primary(lexemes(tokens@), end, pos as int)),
        r matches Ok((_, next)) ==> pos < next <= tokens.len(),
    decreases tokens.len() - pos, 0int,
{
    match peek(tokens, pos) {
        Some(Token::Integer(value)) => match peek(tokens, pos + 1) {
            Some(Token::Name(unit)) => Ok(
                (
                    ParseNode::Quantity {
                        value: Decimal::from_integer(*value),
                        unit: unit.clone(),
                        span: covering(tokens, pos, pos + 2),
                    },
                    pos + 2,
                ),
            ),
            _ => Ok(
                (ParseNode::Integer { value: *value, span: covering(tokens, pos, pos + 1) }, pos + 1),
            ),
        },
        Some(Token::Float(value)) => match peek(tokens, pos + 1) {
            Some(Token::Name(unit)) => Ok(
                (
                    ParseNode::Quantity {
                        value: value.clone(),
                        unit: unit.clone(),
                        span: covering(tokens, pos, pos + 2),
                    },
                    pos + 2,
                ),
            ),
            _ => Ok(
                (
                    ParseNode::Float { value: value.clone(), span: covering(tokens, pos, pos + 1) },
                    pos + 1,
                ),
            ),
        },
        Some(Token::Name(_)) => match parse_name(tokens, end, pos) {
            Err(e) => Err(e),
            Ok((name, next)) => {
                if is_mark(tokens, next, &Token::LParen) {
                    match parse_arguments(tokens, end, next + 1) {
                        Err(e) => Err(e),
                        Ok((args, after)) => {
                            let node = ParseNode::Call {
                                name,
                                args,
                                span: covering(tokens, pos, after),
                            };
                            proof {
                                lemma_call_view(node);
                            }
                            Ok((node, after))
                        },
                    }
                } else {
                    Ok((ParseNode::Identifier { name, span: covering(tokens, pos, next) }, next))
                }
            },
        },
        Some(Token::LParen) => match parse_expression(tokens, end, pos + 1, 0) {
            Err(e) => Err(e),
            Ok((inner, next)) => {
                if is_mark(tokens, next, &Token::RParen) {
                    Ok((inner.with_span(covering(tokens, pos, next + 1)), next + 1))
                } else {
                    Err(fault_at(tokens, end, next, ParseErrorKind::ExpectedClosing))
                }
            },
        },
        _ => Err(fault_at(tokens, end, pos, ParseErrorKind::ExpectedExpression)),
    }
}

/// Reads an argument list from behind its opening parenthesis.
fn parse_arguments(tokens: &Vec<(Token, Span)>, end: Span, pos: usize) -> (r: Result<
    (Vec<ParseNode>, usize),
    ParseError,
>)
    requires
        pos <= tokens.len(),
    ensures
        match (r, arguments(lexemes(tokens@), end, pos as int, Seq::empty())) {
            (Ok((args, next)), Ok((a, at))) => trees(args@) == a && next == at,
            (Err(e), Err(f)) => e == f,
            _ => false,
        },
        r matches Ok((_, next)) ==> pos < next <= tokens.len(),
    decreases tokens.len() - pos, 3int,
{
    let ghost toks = lexemes(tokens@);
    let mut done: Vec<ParseNode> = Vec::new();
    let mut cur: usize = pos;
    assert(trees(done@) =~= Seq::<Tree>::empty());
    loop
        invariant
            toks == lexemes(tokens@),
            pos <= cur <= tokens.len(),
            arguments(toks, end, pos as int, Seq::empty()) == arguments(
                toks,
                end,
                cur as int,
                trees(done@),
            ),
        decreases tokens.len() - cur,
    {
        if is_mark(tokens, cur, &Token::RParen) {
            return Ok((done, cur + 1));
        }
        match parse_expression(tokens, end, cur, 0) {
            Err(e) => {
                return Err(e);
            },
            Ok((argument, next)) => {
                proof {
                    assert(trees(done@.push(argument)) =~= trees(done@).push(argument@));
                }
                done.push(argument);
                if is_mark(tokens, next, &Token::Comma) {
                    cur = next + 1;
                } else if is_mark(tokens, next, &Token::RParen) {
                    return Ok((done, next + 1));
                } else {
                    return Err(fault_at(tokens, end, next, ParseErrorKind::ExpectedClosing));
                }
            },
        }
    }
}

/// Reads an operand with the prefix operators in front of it.
fn parse_operand(tokens: &Vec<(Token, Span)>, end: Span, pos: usize) -> (r: Result<
    (ParseNode, usize),
    ParseError,
>)
    requires
        pos <= tokens.len(),
    ensures
        agrees(r, operand(lexemes(tokens@), end, pos as int)),
        r matches Ok((_, next)) ==> pos < next <= tokens.len(),
    decreases tokens.len() - pos, 1int,
{
    match prefix_at(tokens, pos) {
        Some(operator) => match parse_expression(tokens, end, pos + 1, 6) {
            Err(e) => Err(e),
            Ok((inner, next)) => Ok(
                (
                    ParseNode::UnaryOperation {
                        operator,
                        operand: Box::new(inner),
                        span: covering(tokens, pos, next),
                    },
                    next,
                ),
            ),
        },
        None => parse_primary(tokens, end, pos),
    }
}

/// Reads an expression whose infix operators all hold their left operand
/// with at least `min_power`.
fn parse_expression(tokens: &Vec<(Token, Span)>, end: Span, pos: usize, min_power: u8) -> (r:
    Result<(ParseNode, usize), ParseError>)
    requires
        pos <= tokens.len(),
    ensures
        agrees(r, expression(lexemes(tokens@), end, pos as int, min_power as nat)),
        r matches Ok((_, next)) ==> pos < next <= tokens.len(),
    decreases tokens.len() - pos, 2int,
{
    let ghost toks = lexemes(tokens@);
    let (first, next) = match parse_operand(tokens, end, pos) {
        Err(e) => {
            return Err(e);
        },
        Ok(found) => found,
    };
    let mut lhs: ParseNode = first;
    let mut cur: usize = next;
    loop
        invariant
            toks == lexemes(tokens@),
            pos < cur <= tokens.len(),
            expression(toks, end, pos as int, min_power as nat) == climb(
                toks,
                end,
                pos as int,
                lhs@,
                cur as int,
                min_power as nat,
            ),
        decreases tokens.len() - cur,
    {
        let operator = match infix_at(tokens, cur) {
            None => {
                return Ok((lhs, cur));
            },
            Some(operator) => operator,
        };
        if operator.binding_left() < min_power {
            return Ok((lhs, cur));
        }
        match parse_expression(tokens, end, cur + 1, operator.binding_right()) {
            Err(e) => {
                return Err(e);
            },
            Ok((rhs, after)) => {
                lhs =
                ParseNode::BinaryOperation {
                    operator,
                    lhs: Box::new(lhs),
                    rhs: Box::new(rhs),
                    span: covering(tokens, pos, after),
                };
                cur = after;
            },
        }
    }
}

/// One fault for each error token, in the order of the tokens.
fn collect_lexical_faults(tokens: &Vec<(Token, Span)>) -> (faults: Vec<ParseError>)
    ensures
        faults@ == lexical_faults(lexemes(tokens@)),
{
    let ghost toks = lexemes(tokens@);
    let mut faults: Vec<ParseError> = Vec::new();
    let mut i: usize = 0;
    assert(toks.take(0) =~= Seq::<(Lexeme, Span)>::empty());
    while i < tokens.len()
        invariant
            toks == lexemes(tokens@),
            i <= tokens.len(),
            faults@ == lexical_faults(toks.take(i as int)),
        decreases tokens.len() - i,
    {
        proof {
            assert(toks.take(i + 1).drop_last() =~= toks.take(i as int));
            assert(toks.take(i + 1).last() == toks[i as int]);
        }
        match &tokens[i].0 {
            Token::Error(e) => {
                faults.push(ParseError { kind: ParseErrorKind::Lexical(*e), span: tokens[i].1 });
            },
            _ => {},
        }
        i = i + 1;
    }
    assert(toks.take(tokens.len() as int) =~= toks);
    faults
}

/// Parses a sequence of tokens, each with its span, into a syntax tree.
/// `end` is the span that a fault at the end of the text is reported at.
pub fn parse_tokens(tokens: &Vec<(Token, Span)>, end: Span) -> (r: Result<
    ParseNode,
    Vec<ParseError>,
>)
    ensures
        conforms(r, syntax(lexemes(tokens@), end)),
{
    let faults = collect_lexical_faults(tokens);
    if faults.len() > 0 {
        return Err(faults);
    }
    match parse_expression(tokens, end, 0, 0) {
        Err(e) => {
            let mut faults: Vec<ParseError> = Vec::new();
            faults.push(e);
            assert(faults@ =~= seq![e]);
            Err(faults)
        },
        Ok((node, next)) => {
            if next == tokens.len() {
                Ok(node)
            } else {
                let e = fault_at(tokens, end, next, ParseErrorKind::ExpectedEnd);
                let mut faults: Vec<ParseError> = Vec::new();
                faults.push(e);
                assert(faults@ =~= seq![e]);
                Err(faults)
            }
        },
    }
}

/// The span that stands for the end of the text `s`: the empty span behind
/// its last byte.
pub open spec fn end_of(s: Seq<char>) -> Span {
    Span::empty_at(byte_offset(s, s.len() as int) as usize)
}

/// The tree of the text `s`, or its faults: those of its tokens.
pub open spec fn parsed(s: Seq<char>) -> Result<Tree, Seq<ParseError>> {
    syntax(tokenize(s), end_of(s))
}

/// The tree of a text spans the text but for the spaces at its ends: from
/// the first byte of the first character that is no space to the last byte
/// of the last one.
pub proof fn lemma_parsed_spans_text(s: Seq<char>)
    ensures
        parsed(s) matches Ok(tree) ==> tree.span() == span_of(s, first_mark(s), last_mark(s)),
{
    lemma_syntax_spans_all(tokenize(s), end_of(s));
    lemma_tokens_reach(s);
}

/// Parses the text of an expression into its syntax tree, or reports the
/// faults of the text.
pub fn parse(input: &str) -> (r: Result<ParseNode, Vec<ParseError>>)
    ensures
        conforms(r, parsed(input@)),
        r matches Ok(node) ==> node@.span() == span_of(
            input@,
            first_mark(input@),
            last_mark(input@),
        ),
{
    broadcast use vstd::slice::group_slice_axioms;

    let tokens = lex(input);
    let total = input.as_bytes().len();
    proof {
        lemma_byte_offset_monotonic(input@, 0, input@.len() as int);
        lemma_parsed_spans_text(input@);
    }
    parse_tokens(&tokens, Span { start: total, end: total })
}

} // verus!
