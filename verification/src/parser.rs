//! The statement tree that the evaluator walks.

pub mod read;
pub mod span;
pub mod tree;
pub mod view;

pub use span::{Position, PositionView, Span, SpanView};
pub use read::DigifyParser;
pub use tree::{Pair, PairView, Rule, SyntaxError};
pub use view::{ElementView, ExprNode, ExprView, NameView, StmtNode, StmtView};

use vstd::prelude::*;

verus! {

/// A value together with the stretch of source text it was read from.
#[derive(Debug)]
pub struct Item<T> {
    pub item: T,
    pub span: Span,
}

/// An identifier or a piece of text with its place.
pub type Istr = Item<String>;

/// An expression with its place.
pub type IExpr = Item<Expr>;

/// A statement with its place.
pub type IStmt = Item<Stmt>;

/// One statement of a script.
#[derive(Debug)]
pub enum Stmt {
    /// Declares a primitive unit under a name, with its display symbol.
    Definition(Istr, Istr),
    /// Binds a name to the unit that an expression denotes.
    Let(Istr, IExpr),
    /// Claims that two expressions denote the same dimension.
    Assert(IExpr, IExpr),
    /// Writes a text or the rendering of an expression.
    Print(Element),
    /// A sequence of statements with a scope of its own.
    Block(Vec<IStmt>),
}

/// A unit expression.
#[derive(Debug)]
pub enum Expr {
    /// A name.
    Ident(Istr),
    /// The product of two expressions.
    Mul(Box<IExpr>, Box<IExpr>),
    /// The quotient of two expressions.
    Div(Box<IExpr>, Box<IExpr>),
    /// An expression raised to a signed integer power.
    Power(Box<IExpr>, i32),
    /// An expression whose names are expanded into primitive units at once.
    Simplify(Box<IExpr>),
    /// Nothing: the dimensionless unit.
    Empty,
}

/// What a print statement writes.
#[derive(Debug)]
pub enum Element {
    /// A text, written as it stands.
    String(Istr),
    /// An expression, written as the rendering of its unit.
    Expr(IExpr),
}

impl<T> Item<T> {
    /// Puts a value and its place together.
    pub fn new(item: T, span: Span) -> (r: Item<T>)
        ensures
            r.item == item,
            r.span == span,
    {
        Item { item, span }
    }

    /// The value.
    pub fn item(&self) -> (r: &T)
        ensures
            *r == self.item,
    {
        &self.item
    }
}

impl Item<String> {
    /// The text of the value.
    pub fn as_str(&self) -> (r: &str)
        ensures
            r@ == self.item@,
    {
        self.item.as_str()
    }
}

impl Item<String> {
    /// The text of a node of a parse tree, with its place.
    pub fn new_str(value: &Pair) -> (r: Item<String>)
        ensures
            r@ == (value.text@, value.span@),
    {
        Item { item: value.text.clone(), span: value.span.duplicate() }
    }
}

impl Default for Item<Expr> {
    /// The empty expression at no place.
    fn default() -> (r: Item<Expr>)
        ensures
            r.item is Empty,
            r.span.input_view() == Seq::<char>::empty(),
            r@ == view::blank(),
    {
        Item { item: Expr::Empty, span: Span::default() }
    }
}

} // verus!
