//! What the nodes of a statement tree say.

use crate::parser::span::SpanView;
use crate::parser::{Element, Expr, Item, Stmt};
use vstd::prelude::*;

verus! {

/// What a name or a text with its place says.
pub type NameView = (Seq<char>, SpanView);

/// What an expression with its place says.
pub type ExprNode = (ExprView, SpanView);

/// What a statement with its place says.
pub type StmtNode = (StmtView, SpanView);

/// What an expression says.
pub enum ExprView {
    Ident(NameView),
    Mul(Box<ExprNode>, Box<ExprNode>),
    Div(Box<ExprNode>, Box<ExprNode>),
    Power(Box<ExprNode>, i32),
    Simplify(Box<ExprNode>),
    Empty,
}

/// What an element of a print statement says.
pub enum ElementView {
    String(NameView),
    Expr(ExprNode),
}

/// What a statement says.
pub enum StmtView {
    Definition(NameView, NameView),
    Let(NameView, ExprNode),
    Assert(ExprNode, ExprNode),
    Print(ElementView),
    Block(Seq<StmtNode>),
}

/// The empty expression at no place.
pub open spec fn blank() -> ExprNode {
    (ExprView::Empty, (Seq::<char>::empty(), (0usize, 0usize), (0usize, 0usize)))
}

impl View for Item<String> {
    type V = NameView;

    open spec fn view(&self) -> NameView {
        (self.item@, self.span@)
    }
}

impl View for Expr {
    type V = ExprView;

    open spec fn view(&self) -> ExprView
        decreases self,
    {
        match self {
            Expr::Ident(name) => ExprView::Ident((name.item@, name.span@)),
            Expr::Mul(left, right) => ExprView::Mul(
                Box::new((left.item@, left.span@)),
                Box::new((right.item@, right.span@)),
            ),
            Expr::Div(left, right) => ExprView::Div(
                Box::new((left.item@, left.span@)),
                Box::new((right.item@, right.span@)),
            ),
            Expr::Power(base, n) => ExprView::Power(Box::new((base.item@, base.span@)), *n),
            Expr::Simplify(inner) => ExprView::Simplify(Box::new((inner.item@, inner.span@))),
            Expr::Empty => ExprView::Empty,
        }
    }
}

impl View for Item<Expr> {
    type V = ExprNode;

    open spec fn view(&self) -> ExprNode {
        (self.item@, self.span@)
    }
}

impl View for Element {
    type V = ElementView;

    open spec fn view(&self) -> ElementView {
        match self {
            Element::String(text) => ElementView::String(text@),
            Element::Expr(expr) => ElementView::Expr(expr@),
        }
    }
}

/// What the first `n` of some statements say, in order.
pub open spec fn stmts_view(stmts: Vec<Item<Stmt>>, n: int) -> Seq<StmtNode>
    decreases stmts, n,
{
    if n <= 0 || n > stmts.len() {
        Seq::empty()
    } else {
        stmts_view(stmts, n - 1).push((stmts[n - 1].item@, stmts[n - 1].span@))
    }
}

impl View for Stmt {
    type V = StmtView;

    open spec fn view(&self) -> StmtView
        decreases self,
    {
        match self {
            Stmt::Definition(ident, symbole) => StmtView::Definition(ident@, symbole@),
            Stmt::Let(ident, expr) => StmtView::Let(ident@, expr@),
            Stmt::Assert(left, right) => StmtView::Assert(left@, right@),
            Stmt::Print(element) => StmtView::Print(element@),
            Stmt::Block(stmts) => StmtView::Block(stmts_view(*stmts, stmts.len() as int)),
        }
    }
}

impl View for Item<Stmt> {
    type V = StmtNode;

    open spec fn view(&self) -> StmtNode {
        (self.item@, self.span@)
    }
}

/// Adding a statement at the end adds what it says at the end.
pub proof fn lemma_stmts_view_push(before: Vec<Item<Stmt>>, after: Vec<Item<Stmt>>)
    requires
        after@.len() == before@.len() + 1,
        after@.drop_last() == before@,
    ensures
        stmts_view(after, after.len() as int) == stmts_view(before, before.len() as int).push(
            after@.last()@,
        ),
{
    reveal_with_fuel(stmts_view, 2);
    lemma_stmts_view_same(before, after, before.len() as int);
}

proof fn lemma_stmts_view_same(before: Vec<Item<Stmt>>, after: Vec<Item<Stmt>>, n: int)
    requires
        0 <= n <= before@.len(),
        n <= after@.len(),
        forall|i: int| 0 <= i < n ==> before@[i] == after@[i],
    ensures
        stmts_view(before, n) == stmts_view(after, n),
    decreases n,
{
    reveal_with_fuel(stmts_view, 2);
    if n > 0 {
        lemma_stmts_view_same(before, after, n - 1);
    }
}

} // verus!
