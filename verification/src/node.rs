//! The syntax tree.

use crate::decimal::{render_number, Decimal, Number};
use crate::render::{push_integer, render_integer};
use crate::span::Span;
use vstd::prelude::*;
use vstd::string::*;
use vstd::std_specs::cmp::PartialEqSpecImpl;

verus! {

/// An operator between two operands.
#[derive(Clone, Copy, Debug, PartialEq, Eq, Structural, Hash)]
pub enum BinaryOperator {
    Add,
    Subtract,
    Multiply,
    Divide,
    Power,
}

/// An operator in front of one operand.
#[derive(Clone, Copy, Debug, PartialEq, Eq, Structural, Hash)]
pub enum UnaryOperator {
    Negate,
    Plus,
}

impl BinaryOperator {
    /// The character that stands for the operator.
    pub open spec fn symbol(self) -> char {
        match self {
            BinaryOperator::Add => '+',
            BinaryOperator::Subtract => '-',
            BinaryOperator::Multiply => '*',
            BinaryOperator::Divide => '/',
            BinaryOperator::Power => '^',
        }
    }

    /// The level of the operator: a higher level binds tighter.
    pub open spec fn level(self) -> nat {
        match self {
            BinaryOperator::Add | BinaryOperator::Subtract => 1,
            BinaryOperator::Multiply | BinaryOperator::Divide => 2,
            BinaryOperator::Power => 4,
        }
    }

    /// Whether a chain of this operator groups from the right.
    pub open spec fn right_associative(self) -> bool {
        self == BinaryOperator::Power
    }

    /// How strongly the operator holds the operand on its left.
    pub open spec fn left_power(self) -> nat {
        if self.right_associative() {
            2 * self.level() + 1
        } else {
            2 * self.level()
        }
    }

    /// How strongly the operator holds the operand on its right.
    pub open spec fn right_power(self) -> nat {
        if self.right_associative() {
            2 * self.level()
        } else {
            2 * self.level() + 1
        }
    }

    /// The character that stands for the operator.
    pub fn symbol_char(self) -> (c: char)
        ensures
            c == self.symbol(),
    {
        match self {
            BinaryOperator::Add => '+',
            BinaryOperator::Subtract => '-',
            BinaryOperator::Multiply => '*',
            BinaryOperator::Divide => '/',
            BinaryOperator::Power => '^',
        }
    }

    /// The text of the operator.
    pub fn to_string(&self) -> (text: String)
        ensures
            text@ == seq![self.symbol()],
    {
        let mut text = String::new();
        text.push(self.symbol_char());
        assert(text@ =~= seq![self.symbol()]);
        text
    }

    /// How strongly the operator holds the operand on its left.
    pub fn binding_left(self) -> (r: u8)
        ensures
            r == self.left_power(),
    {
        match self {
            BinaryOperator::Add | BinaryOperator::Subtract => 2,
            BinaryOperator::Multiply | BinaryOperator::Divide => 4,
            BinaryOperator::Power => 9,
        }
    }

    /// How strongly the operator holds the operand on its right.
    pub fn binding_right(self) -> (r: u8)
        ensures
            r == self.right_power(),
    {
        match self {
            BinaryOperator::Add | BinaryOperator::Subtract => 3,
            BinaryOperator::Multiply | BinaryOperator::Divide => 5,
            BinaryOperator::Power => 8,
        }
    }
}

impl UnaryOperator {
    /// The character that stands for the operator.
    pub open spec fn symbol(self) -> char {
        match self {
            UnaryOperator::Negate => '-',
            UnaryOperator::Plus => '+',
        }
    }

    /// The character that stands for the operator.
    pub fn symbol_char(self) -> (c: char)
        ensures
            c == self.symbol(),
    {
        match self {
            UnaryOperator::Negate => '-',
            UnaryOperator::Plus => '+',
        }
    }

    /// The text of the operator.
    pub fn to_string(&self) -> (text: String)
        ensures
            text@ == seq![self.symbol()],
    {
        let mut text = String::new();
        text.push(self.symbol_char());
        assert(text@ =~= seq![self.symbol()]);
        text
    }

    /// The level of the prefix operators: between the multiplicative
    /// operators and the power operator.
    pub open spec fn level() -> nat {
        3
    }

    /// How strongly a prefix operator holds its operand.
    pub open spec fn power() -> nat {
        2 * UnaryOperator::level()
    }
}

/// A node of the syntax tree, with the place in the source text that it was
/// read from.
#[derive(Debug)]
#[allow(inconsistent_fields)]
pub enum ParseNode {
    Integer { value: i64, span: Span },
    Float { value: Decimal, span: Span },
    Quantity { value: Decimal, unit: String, span: Span },
    Identifier { name: String, span: Span },
    UnaryOperation { operator: UnaryOperator, operand: Box<ParseNode>, span: Span },
    BinaryOperation { operator: BinaryOperator, lhs: Box<ParseNode>, rhs: Box<ParseNode>, span: Span },
    Call { name: String, args: Vec<ParseNode>, span: Span },
}

/// The mathematical value of a [`ParseNode`].
#[allow(inconsistent_fields)]
pub enum Tree {
    Integer { value: i64, span: Span },
    Float { value: Number, span: Span },
    Quantity { value: Number, unit: Seq<char>, span: Span },
    Identifier { name: Seq<char>, span: Span },
    UnaryOperation { operator: UnaryOperator, operand: Box<Tree>, span: Span },
    BinaryOperation { operator: BinaryOperator, lhs: Box<Tree>, rhs: Box<Tree>, span: Span },
    Call { name: Seq<char>, args: Seq<Tree>, span: Span },
}

impl Number {
    /// The number without the sign of zero.
    pub open spec fn unsigned_zero(self) -> Number {
        Number { negative: self.negative && !self.is_zero(), ..self }
    }
}

impl Tree {
    /// The place in the source text that the node was read from.
    pub open spec fn span(self) -> Span {
        match self {
            Tree::Integer { span, .. } => span,
            Tree::Float { span, .. } => span,
            Tree::Quantity { span, .. } => span,
            Tree::Identifier { span, .. } => span,
            Tree::UnaryOperation { span, .. } => span,
            Tree::BinaryOperation { span, .. } => span,
            Tree::Call { span, .. } => span,
        }
    }

    /// The same node at another place.
    pub open spec fn with_span(self, at: Span) -> Tree {
        match self {
            Tree::Integer { value, .. } => Tree::Integer { value, span: at },
            Tree::Float { value, .. } => Tree::Float { value, span: at },
            Tree::Quantity { value, unit, .. } => Tree::Quantity { value, unit, span: at },
            Tree::Identifier { name, .. } => Tree::Identifier { name, span: at },
            Tree::UnaryOperation { operator, operand, .. } => Tree::UnaryOperation {
                operator,
                operand,
                span: at,
            },
            Tree::BinaryOperation { operator, lhs, rhs, .. } => Tree::BinaryOperation {
                operator,
                lhs,
                rhs,
                span: at,
            },
            Tree::Call { name, args, .. } => Tree::Call { name, args, span: at },
        }
    }

    /// What the tree says, apart from where it was read: every span is
    /// replaced by the empty span at offset zero, and zero loses its sign.
    pub open spec fn structure(self) -> Tree
        decreases self,
    {
        let nowhere = Span { start: 0, end: 0 };
        match self {
            Tree::Integer { value, .. } => Tree::Integer { value, span: nowhere },
            Tree::Float { value, .. } => Tree::Float { value: value.unsigned_zero(), span: nowhere },
            Tree::Quantity { value, unit, .. } => Tree::Quantity {
                value: value.unsigned_zero(),
                unit,
                span: nowhere,
            },
            Tree::Identifier { name, .. } => Tree::Identifier { name, span: nowhere },
            Tree::UnaryOperation { operator, operand, .. } => Tree::UnaryOperation {
                operator,
                operand: Box::new(operand.structure()),
                span: nowhere,
            },
            Tree::BinaryOperation { operator, lhs, rhs, .. } => Tree::BinaryOperation {
                operator,
                lhs: Box::new(lhs.structure()),
                rhs: Box::new(rhs.structure()),
                span: nowhere,
            },
            Tree::Call { name, args, .. } => Tree::Call {
                name,
                args: Seq::new(
                    args.len(),
                    |i: int|
                        if 0 <= i < args.len() {
                            args[i].structure()
                        } else {
                            arbitrary()
                        },
                ),
                span: nowhere,
            },
        }
    }
}

/// The texts `parts` with a comma and a space between each two of them.
pub open spec fn join(parts: Seq<Seq<char>>) -> Seq<char>
    decreases parts.len(),
{
    if parts.len() == 0 {
        Seq::empty()
    } else if parts.len() == 1 {
        parts[0]
    } else {
        join(parts.drop_last()) + seq![',', ' '] + parts.last()
    }
}

impl Tree {
    /// The canonical texts of the arguments of a call.
    pub open spec fn argument_texts(self) -> Seq<Seq<char>>
        decreases self, 0int,
    {
        match self {
            Tree::Call { args, .. } => Seq::new(
                args.len(),
                |i: int|
                    if 0 <= i < args.len() {
                        args[i].render()
                    } else {
                        arbitrary()
                    },
            ),
            _ => Seq::empty(),
        }
    }

    /// The canonical text of the tree: every operation of two operands in
    /// parentheses with spaces round its operator, the operand of a prefix
    /// operator in parentheses behind it, a quantity as its number, a space
    /// and its unit, a call as its name and, in parentheses, its arguments
    /// with a comma and a space between them.
    pub open spec fn render(self) -> Seq<char>
        decreases self, 1int,
    {
        match self {
            Tree::Integer { value, .. } => render_integer(value as int),
            Tree::Float { value, .. } => render_number(value),
            Tree::Quantity { value, unit, .. } => render_number(value) + seq![' '] + unit,
            Tree::Identifier { name, .. } => name,
            Tree::UnaryOperation { operator, operand, .. } => seq![operator.symbol(), '(']
                + operand.render() + seq![')'],
            Tree::BinaryOperation { operator, lhs, rhs, .. } => seq!['('] + lhs.render() + seq![
                ' ',
                operator.symbol(),
                ' ',
            ] + rhs.render() + seq![')'],
            Tree::Call { name, .. } => name + seq!['('] + join(self.argument_texts()) + seq![')'],
        }
    }
}

/// The texts of the trees `args`.
pub open spec fn rendered(args: Seq<Tree>) -> Seq<Seq<char>> {
    Seq::new(args.len(), |i: int| args[i].render())
}

/// The text of a call is its name and, in parentheses, the joined texts of
/// its arguments.
pub proof fn lemma_call_render(tree: Tree)
    requires
        tree is Call,
    ensures
        tree matches Tree::Call { name, args, .. } && tree.render() == name + seq!['('] + join(
            rendered(args),
        ) + seq![')'],
{
    match tree {
        Tree::Call { name, args, .. } => {
            assert(tree.argument_texts() =~= rendered(args));
        },
        _ => {},
    }
}

impl Tree {
    /// Whether two trees say the same, wherever they were read: this is
    /// what `==` means between two nodes.
    pub open spec fn same(self, other: Tree) -> bool {
        self.structure() == other.structure()
    }

    /// The tree with each of its spans replaced by what `f` makes of it.
    pub open spec fn relocated(self, f: spec_fn(Span) -> Span) -> Tree
        decreases self,
    {
        match self {
            Tree::Integer { value, span } => Tree::Integer { value, span: f(span) },
            Tree::Float { value, span } => Tree::Float { value, span: f(span) },
            Tree::Quantity { value, unit, span } => Tree::Quantity { value, unit, span: f(span) },
            Tree::Identifier { name, span } => Tree::Identifier { name, span: f(span) },
            Tree::UnaryOperation { operator, operand, span } => Tree::UnaryOperation {
                operator,
                operand: Box::new(operand.relocated(f)),
                span: f(span),
            },
            Tree::BinaryOperation { operator, lhs, rhs, span } => Tree::BinaryOperation {
                operator,
                lhs: Box::new(lhs.relocated(f)),
                rhs: Box::new(rhs.relocated(f)),
                span: f(span),
            },
            Tree::Call { name, args, span } => Tree::Call {
                name,
                args: Seq::new(
                    args.len(),
                    |i: int|
                        if 0 <= i < args.len() {
                            args[i].relocated(f)
                        } else {
                            arbitrary()
                        },
                ),
                span: f(span),
            },
        }
    }
}

/// Equality ignores spans: whatever is done to the spans of a tree, its
/// structure stays what it was, and its text too.
pub proof fn lemma_structure_ignores_spans(tree: Tree, f: spec_fn(Span) -> Span)
    ensures
        tree.relocated(f).structure() == tree.structure(),
        tree.relocated(f).render() == tree.render(),
    decreases tree,
{
    match tree {
        Tree::UnaryOperation { operand, .. } => {
            lemma_structure_ignores_spans(*operand, f);
        },
        Tree::BinaryOperation { lhs, rhs, .. } => {
            lemma_structure_ignores_spans(*lhs, f);
            lemma_structure_ignores_spans(*rhs, f);
        },
        Tree::Call { name, args, span } => {
            let moved = tree.relocated(f);
            assert forall|i: int| 0 <= i < args.len() implies (#[trigger] args[i]).relocated(
                f,
            ).structure() == args[i].structure() && args[i].relocated(f).render()
                == args[i].render() by {
                lemma_structure_ignores_spans(args[i], f);
            }
            lemma_call_structure(tree);
            lemma_call_structure(moved);
            assert(moved.structure()->Call_args =~= tree.structure()->Call_args);
            assert(moved.argument_texts() =~= tree.argument_texts());
        },
        _ => {},
    }
}

/// Two nodes of which one is the other at other places are equal.
pub proof fn lemma_equal_wherever_read(a: ParseNode, b: ParseNode, f: spec_fn(Span) -> Span)
    requires
        b@ == a@.relocated(f),
    ensures
        a@.same(b@),
        b@.same(a@),
{
    lemma_structure_ignores_spans(a@, f);
}

/// Placing a tree elsewhere leaves its structure and its text what they
/// were.
pub proof fn lemma_with_span_keeps_structure(tree: Tree, at: Span)
    ensures
        tree.with_span(at).structure() == tree.structure(),
        tree.with_span(at).render() == tree.render(),
{
    match tree {
        Tree::Call { .. } => {
            lemma_call_structure(tree);
            lemma_call_structure(tree.with_span(at));
            assert(tree.with_span(at).structure()->Call_args =~= tree.structure()->Call_args);
            assert(tree.with_span(at).argument_texts() =~= tree.argument_texts());
        },
        _ => {},
    }
}

/// Equality of nodes is an equivalence: each node equals itself, equality
/// does not depend on the side, and what equals the same node is equal.
pub proof fn lemma_equality_is_equivalence(a: Tree, b: Tree, c: Tree)
    ensures
        a.same(a),
        a.same(b) == b.same(a),
        a.same(b) && b.same(c) ==> a.same(c),
{
}

/// The mathematical values of a sequence of nodes.
pub open spec fn trees(nodes: Seq<ParseNode>) -> Seq<Tree> {
    Seq::new(nodes.len(), |i: int| nodes[i]@)
}

impl ParseNode {
    /// The mathematical value of the node and of everything below it.
    pub open spec fn tree(&self) -> Tree
        decreases self,
    {
        match self {
            ParseNode::Integer { value, span } => Tree::Integer { value: *value, span: *span },
            ParseNode::Float { value, span } => Tree::Float { value: value@, span: *span },
            ParseNode::Quantity { value, unit, span } => Tree::Quantity {
                value: value@,
                unit: unit@,
                span: *span,
            },
            ParseNode::Identifier { name, span } => Tree::Identifier { name: name@, span: *span },
            ParseNode::UnaryOperation { operator, operand, span } => Tree::UnaryOperation {
                operator: *operator,
                operand: Box::new(operand.tree()),
                span: *span,
            },
            ParseNode::BinaryOperation { operator, lhs, rhs, span } => Tree::BinaryOperation {
                operator: *operator,
                lhs: Box::new(lhs.tree()),
                rhs: Box::new(rhs.tree()),
                span: *span,
            },
            ParseNode::Call { name, args, span } => Tree::Call {
                name: name@,
                args: Seq::new(
                    args@.len(),
                    |i: int|
                        if 0 <= i < args@.len() {
                            args@[i].tree()
                        } else {
                            arbitrary()
                        },
                ),
                span: *span,
            },
        }
    }
}

impl View for ParseNode {
    type V = Tree;

    open spec fn view(&self) -> Tree {
        self.tree()
    }
}

/// The value of a call node holds the values of its arguments.
pub proof fn lemma_call_view(node: ParseNode)
    requires
        node is Call,
    ensures
        node@ matches Tree::Call { name, args, span } && node matches ParseNode::Call {
            name: n,
            args: a,
            span: s,
        } && name == n@ && args == trees(a@) && span == s,
{
    match node {
        ParseNode::Call { name, args, span } => {
            assert(node@->Call_args =~= trees(args@));
        },
        _ => {},
    }
}

/// The structure of a call holds the structures of its arguments.
pub proof fn lemma_call_structure(tree: Tree)
    requires
        tree is Call,
    ensures
        tree.structure() matches Tree::Call { name, args, .. } && tree matches Tree::Call {
            name: n,
            args: a,
            ..
        } && name == n && args.len() == a.len() && forall|i: int|
            0 <= i < a.len() ==> #[trigger] args[i] == a[i].structure(),
{
}

impl ParseNode {
    /// The place in the source text that the node was read from.
    pub fn span(&self) -> (r: Span)
        ensures
            r == self@.span(),
    {
        match self {
            ParseNode::Integer { span, .. } => *span,
            ParseNode::Float { span, .. } => *span,
            ParseNode::Quantity { span, .. } => *span,
            ParseNode::Identifier { span, .. } => *span,
            ParseNode::UnaryOperation { span, .. } => *span,
            ParseNode::BinaryOperation { span, .. } => *span,
            ParseNode::Call { span, .. } => *span,
        }
    }

    /// The same node at another place.
    pub fn with_span(self, at: Span) -> (r: ParseNode)
        ensures
            r@ == self@.with_span(at),
    {
        match self {
            ParseNode::Integer { value, .. } => ParseNode::Integer { value, span: at },
            ParseNode::Float { value, .. } => ParseNode::Float { value, span: at },
            ParseNode::Quantity { value, unit, .. } => ParseNode::Quantity { value, unit, span: at },
            ParseNode::Identifier { name, .. } => ParseNode::Identifier { name, span: at },
            ParseNode::UnaryOperation { operator, operand, .. } => ParseNode::UnaryOperation {
                operator,
                operand,
                span: at,
            },
            ParseNode::BinaryOperation { operator, lhs, rhs, .. } => ParseNode::BinaryOperation {
                operator,
                lhs,
                rhs,
                span: at,
            },
            ParseNode::Call { name, args, .. } => {
                let r = ParseNode::Call { name, args, span: at };
                proof {
                    lemma_call_view(self);
                    lemma_call_view(r);
                }
                r
            },
        }
    }

    /// Appends the canonical text of the node to `out`.
    pub fn write_to(&self, out: &mut String)
        ensures
            final(out)@ == old(out)@ + self@.render(),
        decreases self,
    {
        let ghost before = out@;
        match self {
            ParseNode::Integer { value, .. } => {
                push_integer(out, *value);
            },
            ParseNode::Float { value, .. } => {
                value.write_to(out);
            },
            ParseNode::Quantity { value, unit, .. } => {
                value.write_to(out);
                out.push(' ');
                out.append(unit.as_str());
                assert(out@ =~= before + (render_number(value@) + seq![' '] + unit@));
            },
            ParseNode::Identifier { name, .. } => {
                out.append(name.as_str());
            },
            ParseNode::UnaryOperation { operator, operand, .. } => {
                out.push(operator.symbol_char());
                out.push('(');
                operand.write_to(out);
                out.push(')');
                assert(out@ =~= before + (seq![operator.symbol(), '('] + operand@.render() + seq![
                    ')',
                ]));
            },
            ParseNode::BinaryOperation { operator, lhs, rhs, .. } => {
                out.push('(');
                lhs.write_to(out);
                out.push(' ');
                out.push(operator.symbol_char());
                out.push(' ');
                rhs.write_to(out);
                out.push(')');
                assert(out@ =~= before + (seq!['('] + lhs@.render() + seq![
                    ' ',
                    operator.symbol(),
                    ' ',
                ] + rhs@.render() + seq![')']));
            },
            ParseNode::Call { name, args, .. } => {
                proof {
                    lemma_call_view(*self);
                    lemma_call_render(self@);
                }
                let ghost parts = rendered(trees(args@));
                out.append(name.as_str());
                out.push('(');
                let ghost opened = out@;
                let mut i: usize = 0;
                assert(parts.take(0) =~= Seq::<Seq<char>>::empty());
                while i < args.len()
                    invariant
                        i <= args.len(),
                        parts == rendered(trees(args@)),
                        out@ =~= opened + join(parts.take(i as int)),
                        forall|j: int| 0 <= j < args.len() ==> decreases_to!(self => args[j]),
                    decreases args.len() - i,
                {
                    if i > 0 {
                        out.push(',');
                        out.push(' ');
                    }
                    args[i].write_to(out);
                    proof {
                        assert(parts.take(i + 1).drop_last() =~= parts.take(i as int));
                        assert(parts.take(i + 1).last() == args[i as int]@.render());
                    }
                    i = i + 1;
                }
                assert(parts.take(args.len() as int) =~= parts);
                out.push(')');
                assert(out@ =~= before + (name@ + seq!['('] + join(parts) + seq![')']));
            },
        }
    }

    /// The canonical text of the node.
    pub fn to_string(&self) -> (text: String)
        ensures
            text@ == self@.render(),
    {
        let mut text = String::new();
        self.write_to(&mut text);
        assert(text@ =~= self@.render());
        text
    }

    /// Whether two nodes say the same, wherever they were read.
    pub fn same_structure(&self, other: &ParseNode) -> (r: bool)
        ensures
            r == self@.same(other@),
        decreases self,
    {
        match (self, other) {
            (ParseNode::Integer { value: a, .. }, ParseNode::Integer { value: b, .. }) => *a == *b,
            (ParseNode::Float { value: a, .. }, ParseNode::Float { value: b, .. }) => *a == *b,
            (
                ParseNode::Quantity { value: a, unit: ua, .. },
                ParseNode::Quantity { value: b, unit: ub, .. },
            ) => *a == *b && *ua == *ub,
            (ParseNode::Identifier { name: a, .. }, ParseNode::Identifier { name: b, .. }) => *a
                == *b,
            (
                ParseNode::UnaryOperation { operator: oa, operand: a, .. },
                ParseNode::UnaryOperation { operator: ob, operand: b, .. },
            ) => *oa == *ob && a.same_structure(b),
            (
                ParseNode::BinaryOperation { operator: oa, lhs: la, rhs: ra, .. },
                ParseNode::BinaryOperation { operator: ob, lhs: lb, rhs: rb, .. },
            ) => *oa == *ob && la.same_structure(lb) && ra.same_structure(rb),
            (
                ParseNode::Call { name: na, args: aa, .. },
                ParseNode::Call { name: nb, args: ab, .. },
            ) => {
                proof {
                    lemma_call_view(*self);
                    lemma_call_view(*other);
                    lemma_call_structure(self@);
                    lemma_call_structure(other@);
                }
                if *na != *nb || aa.len() != ab.len() {
                    return false;
                }
                let ghost sa = self@.structure()->Call_args;
                let ghost sb = other@.structure()->Call_args;
                let mut i: usize = 0;
                while i < aa.len()
                    invariant
                        i <= aa.len(),
                        aa.len() == ab.len(),
                        self@.structure() is Call,
                        other@.structure() is Call,
                        sa == self@.structure()->Call_args,
                        sb == other@.structure()->Call_args,
                        self@.structure()->Call_name == other@.structure()->Call_name,
                        sa.len() == aa.len(),
                        sb.len() == ab.len(),
                        forall|j: int| 0 <= j < aa.len() ==> sa[j] == (#[trigger] aa[j])@.structure(),
                        forall|j: int| 0 <= j < ab.len() ==> sb[j] == (#[trigger] ab[j])@.structure(),
                        forall|j: int| 0 <= j < i ==> sa[j] == sb[j],
                        forall|j: int| 0 <= j < aa.len() ==> decreases_to!(self => aa[j]),
                    decreases aa.len() - i,
                {
                    if !aa[i].same_structure(&ab[i]) {
                        assert(sa[i as int] != sb[i as int]);
                        return false;
                    }
                    i = i + 1;
                }
                assert(sa =~= sb);
                true
            },
            _ => false,
        }
    }
}

/// Nodes are equal where they say the same, wherever they were read: `==`
/// ignores spans.
impl PartialEq for ParseNode {
    fn eq(&self, other: &ParseNode) -> (r: bool) {
        self.same_structure(other)
    }
}

impl PartialEqSpecImpl for ParseNode {
    open spec fn obeys_eq_spec() -> bool {
        true
    }

    open spec fn eq_spec(&self, other: &ParseNode) -> bool {
        self@.same(other@)
    }
}

} // verus!
