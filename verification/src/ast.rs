//! The syntax tree.

use vstd::prelude::*;
use crate::decimal::{Decimal, DecimalView};

verus! {

/// The operators of the language.
#[derive(Clone, Copy, Debug, PartialEq, Eq, Structural)]
pub enum OpCode {
    Add,
    Subtract,
    Multiply,
    Divide,
    Modulus,
    Equal,
    NotEqual,
    LessThan,
    LessEqual,
    GreaterThan,
    GreaterEqual,
    And,
    Or,
    Not,
}

/// The mathematical tree that an [`Expression`] stands for.
pub enum Ast {
    Number(DecimalView),
    String(Seq<char>),
    Boolean(bool),
    Null,
    Identifier(Seq<char>),
    Array(Seq<Ast>),
    Object(Seq<(Seq<char>, Ast)>),
    UnaryOperation { operation: OpCode, operand: Box<Ast> },
    BinaryOperation { operation: OpCode, left: Box<Ast>, right: Box<Ast> },
    DotOperation { subject: Box<Ast>, ident: Seq<char> },
    IndexOperation { subject: Box<Ast>, index: Box<Ast> },
    Transform { name: Seq<char>, subject: Box<Ast>, args: Option<Seq<Ast>> },
}

/// A parsed expression. Every node owns its children.
#[derive(Debug, PartialEq)]
pub enum Expression {
    Number(Decimal),
    String(String),
    Boolean(bool),
    Null,
    Identifier(String),
    Array(Vec<Box<Expression>>),
    Object(Vec<(String, Box<Expression>)>),
    UnaryOperation { operation: OpCode, operand: Box<Expression> },
    BinaryOperation { operation: OpCode, left: Box<Expression>, right: Box<Expression> },
    DotOperation { subject: Box<Expression>, ident: String },
    IndexOperation { subject: Box<Expression>, index: Box<Expression> },
    Transform { name: String, subject: Box<Expression>, args: Option<Vec<Box<Expression>>> },
}

impl Expression {
    /// Whether every number in this expression is in canonical form, so that
    /// two expressions with the same tree hold the same digits.
    pub open spec fn canonical(&self) -> bool
        decreases self,
    {
        match self {
            Expression::Number(d) => d.canonical(),
            Expression::Array(items) => forall|i: int|
                0 <= i < items.len() ==> (#[trigger] items[i]).canonical(),
            Expression::Object(pairs) => forall|i: int|
                0 <= i < pairs.len() ==> (#[trigger] pairs[i]).1.canonical(),
            Expression::UnaryOperation { operand, .. } => operand.canonical(),
            Expression::BinaryOperation { left, right, .. } => left.canonical()
                && right.canonical(),
            Expression::DotOperation { subject, .. } => subject.canonical(),
            Expression::IndexOperation { subject, index } => subject.canonical()
                && index.canonical(),
            Expression::Transform { subject, args, .. } => subject.canonical() && match args {
                Some(list) => forall|i: int|
                    0 <= i < list.len() ==> (#[trigger] list[i]).canonical(),
                None => true,
            },
            _ => true,
        }
    }

    /// The tree that this expression stands for.
    pub open spec fn tree(&self) -> Ast
        decreases self,
    {
        match self {
            Expression::Number(d) => Ast::Number(d@),
            Expression::String(s) => Ast::String(s@),
            Expression::Boolean(b) => Ast::Boolean(*b),
            Expression::Null => Ast::Null,
            Expression::Identifier(name) => Ast::Identifier(name@),
            Expression::Array(items) => Ast::Array(
                Seq::new(
                    items.len() as nat,
                    |i: int|
                        if 0 <= i < items.len() {
                            items[i].tree()
                        } else {
                            Ast::Null
                        },
                ),
            ),
            Expression::Object(pairs) => Ast::Object(
                Seq::new(
                    pairs.len() as nat,
                    |i: int|
                        if 0 <= i < pairs.len() {
                            (pairs[i].0@, pairs[i].1.tree())
                        } else {
                            (Seq::empty(), Ast::Null)
                        },
                ),
            ),
            Expression::UnaryOperation { operation, operand } => Ast::UnaryOperation {
                operation: *operation,
                operand: Box::new(operand.tree()),
            },
            Expression::BinaryOperation { operation, left, right } => Ast::BinaryOperation {
                operation: *operation,
                left: Box::new(left.tree()),
                right: Box::new(right.tree()),
            },
            Expression::DotOperation { subject, ident } => Ast::DotOperation {
                subject: Box::new(subject.tree()),
                ident: ident@,
            },
            Expression::IndexOperation { subject, index } => Ast::IndexOperation {
                subject: Box::new(subject.tree()),
                index: Box::new(index.tree()),
            },
            Expression::Transform { name, subject, args } => Ast::Transform {
                name: name@,
                subject: Box::new(subject.tree()),
                args: match args {
                    Some(list) => Some(
                        Seq::new(
                            list.len() as nat,
                            |i: int|
                                if 0 <= i < list.len() {
                                    list[i].tree()
                                } else {
                                    Ast::Null
                                },
                        ),
                    ),
                    None => None,
                },
            },
        }
    }
}

/// Whether every number in every expression of `list` is in canonical form.
pub open spec fn canonical_list(list: Seq<Box<Expression>>) -> bool {
    forall|i: int| 0 <= i < list.len() ==> (#[trigger] list[i]).canonical()
}

/// Whether every number in every value of `list` is in canonical form.
pub open spec fn canonical_entries(list: Seq<(String, Box<Expression>)>) -> bool {
    forall|i: int| 0 <= i < list.len() ==> (#[trigger] list[i]).1.canonical()
}

impl View for Expression {
    type V = Ast;

    open spec fn view(&self) -> Ast {
        self.tree()
    }
}

/// The trees of the expressions of `list`, in order.
pub open spec fn trees_of(list: Seq<Box<Expression>>) -> Seq<Ast> {
    Seq::new(list.len(), |i: int| list[i]@)
}

/// The entries of `list` with the trees of their values, in order.
pub open spec fn entries_of(list: Seq<(String, Box<Expression>)>) -> Seq<(Seq<char>, Ast)> {
    Seq::new(list.len(), |i: int| (list[i].0@, list[i].1@))
}

/// The tree of an array holds the trees of its items.
pub proof fn lemma_array_tree(node: Expression)
    requires
        node is Array,
    ensures
        node@ == Ast::Array(trees_of(node->Array_0@)),
{
    assert(node@->Array_0 =~= trees_of(node->Array_0@));
}

/// The tree of an object holds its keys with the trees of their values.
pub proof fn lemma_object_tree(node: Expression)
    requires
        node is Object,
    ensures
        node@ == Ast::Object(entries_of(node->Object_0@)),
{
    assert(node@->Object_0 =~= entries_of(node->Object_0@));
}

/// The tree of a transform with arguments holds the trees of its arguments.
pub proof fn lemma_transform_tree(node: Expression)
    ensures
        match node {
            Expression::Transform { name, subject, args: Some(list) } => node@ == (Ast::Transform {
                name: name@,
                subject: Box::new(subject@),
                args: Some(trees_of(list@)),
            }),
            _ => true,
        },
{
    match node {
        Expression::Transform { name, subject, args: Some(list) } => {
            assert(node@->args->0 =~= trees_of(list@));
        },
        _ => {},
    }
}

} // verus!
