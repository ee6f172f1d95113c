//! Reading a statement tree off a parse tree.

use crate::parser::tree::{lemma_pairs_view, Pair, PairView, Rule, SyntaxError};
use crate::parser::view::{
    blank, lemma_stmts_view_push, stmts_view, ElementView, ExprNode, ExprView, StmtNode,
    StmtView,
};
use crate::parser::{Element, Expr, IExpr, IStmt, Item, SpanView, Stmt};
use crate::utils::{int_value, parse_int, trim, trimmed};
use vstd::prelude::*;

verus! {

/// The reader of scripts.
pub struct DigifyParser;

/// The expression that follows an operator takes the operator's open
/// place; after anything else it stands for itself.
pub open spec fn attached(acc: ExprNode, expr: ExprNode) -> ExprNode {
    match acc.0 {
        ExprView::Mul(left, _) => (ExprView::Mul(left, Box::new(expr)), acc.1),
        ExprView::Div(left, _) => (ExprView::Div(left, Box::new(expr)), acc.1),
        ExprView::Simplify(_) => (ExprView::Simplify(Box::new(expr)), acc.1),
        _ => expr,
    }
}

/// What one node below an expression node makes of the expression read so
/// far: a name or a nested expression is attached; an operator takes what
/// was read as its left operand and leaves its right operand open, at the
/// place of the whole expression; a number raises what was read to its
/// power; a percent sign opens a simplification.
pub open spec fn step(acc: ExprNode, p: PairView, outer: SpanView) -> Result<
    ExprNode,
    SyntaxError,
>
    decreases p, 1int,
{
    match p.rule {
        Rule::Ident => Ok(attached(acc, (ExprView::Ident((p.text, p.span)), p.span))),
        Rule::Expr => match read_expr(p) {
            Ok(expr) => Ok(attached(acc, expr)),
            Err(e) => Err(e),
        },
        Rule::Mul => Ok((ExprView::Mul(Box::new(acc), Box::new(blank())), outer)),
        Rule::Div => Ok((ExprView::Div(Box::new(acc), Box::new(blank())), outer)),
        Rule::Number => match int_value(trimmed(p.text)) {
            Some(n) => Ok((ExprView::Power(Box::new(acc), n), p.span)),
            None => Err(SyntaxError::Number),
        },
        Rule::Percent => Ok((ExprView::Simplify(Box::new(blank())), p.span)),
        _ => Err(SyntaxError::Unexpected(p.rule)),
    }
}

/// What the nodes from index `i` on make of the expression read so far.
pub open spec fn fold_expr(children: Seq<PairView>, i: int, acc: ExprNode, outer: SpanView) -> Result<
    ExprNode,
    SyntaxError,
>
    decreases children, children.len() - i,
{
    if i < 0 || i >= children.len() {
        Ok(acc)
    } else {
        match step(acc, children[i], outer) {
            Ok(next) => fold_expr(children, i + 1, next, outer),
            Err(e) => Err(e),
        }
    }
}

/// The expression that an expression node stands for.
pub open spec fn read_expr(p: PairView) -> Result<ExprNode, SyntaxError>
    decreases p, 0int,
{
    if p.rule == Rule::Expr {
        fold_expr(p.inner, 0, blank(), p.span)
    } else {
        Err(SyntaxError::NotExpr(p.rule))
    }
}

/// What an element node stands for: the expression below it, or the text
/// inside the string below it.
pub open spec fn read_element(p: PairView) -> Result<ElementView, SyntaxError> {
    if p.rule != Rule::Element {
        Err(SyntaxError::NotElement(p.rule))
    } else if p.inner.len() == 0 {
        Err(SyntaxError::Missing)
    } else if p.inner[0].rule == Rule::Expr {
        match read_expr(p.inner[0]) {
            Ok(expr) => Ok(ElementView::Expr(expr)),
            Err(e) => Err(e),
        }
    } else if p.inner[0].rule == Rule::String {
        if p.inner[0].inner.len() == 0 {
            Err(SyntaxError::Missing)
        } else {
            Ok(ElementView::String((p.inner[0].inner[0].text, p.inner[0].inner[0].span)))
        }
    } else {
        Err(SyntaxError::Unexpected(p.inner[0].rule))
    }
}

/// The statement that a statement node stands for, by the keyword that it
/// begins with.
pub open spec fn read_stmt(p: PairView) -> Result<StmtNode, SyntaxError> {
    if p.rule != Rule::Stmt {
        Err(SyntaxError::NotStmt(p.rule))
    } else if p.inner.len() == 0 {
        Err(SyntaxError::Missing)
    } else {
        match p.inner[0].rule {
            Rule::KeywordDefine => if p.inner.len() < 3 || p.inner[2].inner.len() == 0 {
                Err(SyntaxError::Missing)
            } else {
                Ok(
                    (
                        StmtView::Definition(
                            (p.inner[1].text, p.inner[1].span),
                            (p.inner[2].inner[0].text, p.inner[2].inner[0].span),
                        ),
                        p.span,
                    ),
                )
            },
            Rule::KeywordLet => if p.inner.len() < 3 {
                Err(SyntaxError::Missing)
            } else {
                match read_expr(p.inner[2]) {
                    Ok(expr) => Ok((StmtView::Let((p.inner[1].text, p.inner[1].span), expr), p.span)),
                    Err(e) => Err(e),
                }
            },
            Rule::KeywordAssert => if p.inner.len() < 3 {
                Err(SyntaxError::Missing)
            } else {
                match read_expr(p.inner[1]) {
                    Ok(left) => match read_expr(p.inner[2]) {
                        Ok(right) => Ok((StmtView::Assert(left, right), p.span)),
                        Err(e) => Err(e),
                    },
                    Err(e) => Err(e),
                }
            },
            Rule::KeywordPrint => if p.inner.len() < 2 {
                Err(SyntaxError::Missing)
            } else {
                match read_element(p.inner[1]) {
                    Ok(element) => Ok((StmtView::Print(element), p.span)),
                    Err(e) => Err(e),
                }
            },
            other => Err(SyntaxError::UnknownStatement(other)),
        }
    }
}

/// The statements that the nodes from index `i` on stand for, behind those
/// read so far; the first node that is no statement ends the reading.
pub open spec fn read_all(children: Seq<PairView>, i: int, acc: Seq<StmtNode>) -> Result<
    Seq<StmtNode>,
    SyntaxError,
>
    decreases children.len() - i,
{
    if i < 0 || i >= children.len() {
        Ok(acc)
    } else {
        match read_stmt(children[i]) {
            Ok(stmt) => read_all(children, i + 1, acc.push(stmt)),
            Err(e) => Err(e),
        }
    }
}

/// The block of statements that a program node stands for, at the place
/// of the program.
pub open spec fn read_program(p: PairView) -> Result<StmtNode, SyntaxError> {
    match read_all(p.inner, 0, Seq::empty()) {
        Ok(stmts) => Ok((StmtView::Block(stmts), p.span)),
        Err(e) => Err(e),
    }
}

/// Attaches an expression to what was read so far.
fn attach(acc: IExpr, expr: IExpr) -> (r: IExpr)
    ensures
        r@ == attached(acc@, expr@),
{
    match acc.item {
        Expr::Mul(inner, _) => Item::new(Expr::Mul(inner, Box::new(expr)), acc.span),
        Expr::Div(inner, _) => Item::new(Expr::Div(inner, Box::new(expr)), acc.span),
        Expr::Simplify(_) => Item::new(Expr::Simplify(Box::new(expr)), acc.span),
        _ => expr,
    }
}

impl DigifyParser {
    /// Reads the statements of a program off its parse tree, as one block.
    pub fn parse_to_ast(file: &Pair) -> (r: Result<IStmt, SyntaxError>)
        ensures
            match r {
                Ok(stmt) => read_program(file@) == Ok::<StmtNode, SyntaxError>(stmt@),
                Err(e) => read_program(file@) == Err::<StmtNode, SyntaxError>(e),
            },
    {
        let mut block: Vec<IStmt> = Vec::new();
        let mut i: usize = 0;
        proof {
            lemma_pairs_view(file.inner, file.inner.len() as int);
        }
        while i < file.inner.len()
            invariant
                i <= file.inner.len(),
                file@.inner.len() == file.inner.len(),
                forall|k: int| 0 <= k < file.inner.len() ==> #[trigger] file@.inner[k] == file.inner[k]@,
                read_all(file@.inner, 0, Seq::empty()) == read_all(
                    file@.inner,
                    i as int,
                    stmts_view(block, block.len() as int),
                ),
            decreases file.inner.len() - i,
        {
            let ghost before = block;
            match Self::parse_stmt(&file.inner[i]) {
                Ok(stmt) => {
                    block.push(stmt);
                    proof {
                        assert(block@.drop_last() =~= before@);
                        lemma_stmts_view_push(before, block);
                    }
                },
                Err(e) => {
                    return Err(e);
                },
            }
            i += 1;
        }
        Ok(Item::new(Stmt::Block(block), file.span.duplicate()))
    }

    /// Reads one statement off its node.
    pub fn parse_stmt(pair: &Pair) -> (r: Result<IStmt, SyntaxError>)
        ensures
            match r {
                Ok(stmt) => read_stmt(pair@) == Ok::<StmtNode, SyntaxError>(stmt@),
                Err(e) => read_stmt(pair@) == Err::<StmtNode, SyntaxError>(e),
            },
    {
        if pair.rule != Rule::Stmt {
            return Err(SyntaxError::NotStmt(pair.rule));
        }
        let inner = &pair.inner;
        proof {
            lemma_pairs_view(pair.inner, pair.inner.len() as int);
        }
        if inner.len() == 0 {
            return Err(SyntaxError::Missing);
        }
        let keyword = inner[0].rule;
        let stmt = match keyword {
            Rule::KeywordDefine => {
                if inner.len() < 3 || inner[2].inner.len() == 0 {
                    proof {
                        lemma_pairs_view(inner[2].inner, inner[2].inner.len() as int);
                    }
                    return Err(SyntaxError::Missing);
                }
                proof {
                    lemma_pairs_view(inner[2].inner, inner[2].inner.len() as int);
                }
                let ident = Item::new_str(&inner[1]);
                let string = Item::new_str(&inner[2].inner[0]);
                Stmt::Definition(ident, string)
            },
            Rule::KeywordLet => {
                if inner.len() < 3 {
                    return Err(SyntaxError::Missing);
                }
                let expr = match Self::parse_expr(&inner[2]) {
                    Ok(e) => e,
                    Err(e) => {
                        return Err(e);
                    },
                };
                Stmt::Let(Item::new_str(&inner[1]), expr)
            },
            Rule::KeywordAssert => {
                if inner.len() < 3 {
                    return Err(SyntaxError::Missing);
                }
                let expr1 = match Self::parse_expr(&inner[1]) {
                    Ok(e) => e,
                    Err(e) => {
                        return Err(e);
                    },
                };
                let expr2 = match Self::parse_expr(&inner[2]) {
                    Ok(e) => e,
                    Err(e) => {
                        return Err(e);
                    },
                };
                Stmt::Assert(expr1, expr2)
            },
            Rule::KeywordPrint => {
                if inner.len() < 2 {
                    return Err(SyntaxError::Missing);
                }
                let element = match Self::parse_element(&inner[1]) {
                    Ok(e) => e,
                    Err(e) => {
                        return Err(e);
                    },
                };
                Stmt::Print(element)
            },
            other => {
                return Err(SyntaxError::UnknownStatement(other));
            },
        };
        Ok(Item::new(stmt, pair.span.duplicate()))
    }

    /// Reads one expression off its node: the nodes below it are taken in
    /// from left to right.
    pub fn parse_expr(pair: &Pair) -> (r: Result<IExpr, SyntaxError>)
        ensures
            match r {
                Ok(expr) => read_expr(pair@) == Ok::<ExprNode, SyntaxError>(expr@),
                Err(e) => read_expr(pair@) == Err::<ExprNode, SyntaxError>(e),
            },
        decreases *pair,
    {
        if pair.rule != Rule::Expr {
            return Err(SyntaxError::NotExpr(pair.rule));
        }
        let mut acc: IExpr = Item::default();
        let mut i: usize = 0;
        proof {
            lemma_pairs_view(pair.inner, pair.inner.len() as int);
        }
        while i < pair.inner.len()
            invariant
                i <= pair.inner.len(),
                pair@.inner.len() == pair.inner.len(),
                forall|k: int| 0 <= k < pair.inner.len() ==> #[trigger] pair@.inner[k] == pair.inner[k]@,
                pair.rule == Rule::Expr,
                fold_expr(pair@.inner, 0, blank(), pair.span@) == fold_expr(
                    pair@.inner,
                    i as int,
                    acc@,
                    pair.span@,
                ),
            decreases pair.inner.len() - i,
        {
            let child = &pair.inner[i];
            proof {
                assert(decreases_to!(pair.inner => pair.inner[i as int]));
                assert(pair@.inner[i as int] == child@);
                reveal_with_fuel(fold_expr, 2);
                reveal_with_fuel(step, 2);
            }
            acc = match child.rule {
                Rule::Ident => {
                    let expr = Item::new(Expr::Ident(Item::new_str(child)), child.span.duplicate());
                    attach(acc, expr)
                },
                Rule::Expr => {
                    match Self::parse_expr(child) {
                        Ok(expr) => attach(acc, expr),
                        Err(e) => {
                            return Err(e);
                        },
                    }
                },
                Rule::Mul => Item::new(
                    Expr::Mul(Box::new(acc), Box::new(Item::default())),
                    pair.span.duplicate(),
                ),
                Rule::Div => Item::new(
                    Expr::Div(Box::new(acc), Box::new(Item::default())),
                    pair.span.duplicate(),
                ),
                Rule::Number => {
                    match parse_int(trim(child.text.as_str())) {
                        Some(n) => Item::new(Expr::Power(Box::new(acc), n), child.span.duplicate()),
                        None => {
                            return Err(SyntaxError::Number);
                        },
                    }
                },
                Rule::Percent => Item::new(
                    Expr::Simplify(Box::new(Item::default())),
                    child.span.duplicate(),
                ),
                other => {
                    return Err(SyntaxError::Unexpected(other));
                },
            };
            i += 1;
        }
        Ok(acc)
    }

    /// Reads what a print statement writes off its node.
    pub fn parse_element(pair: &Pair) -> (r: Result<Element, SyntaxError>)
        ensures
            match r {
                Ok(element) => read_element(pair@) == Ok::<ElementView, SyntaxError>(element@),
                Err(e) => read_element(pair@) == Err::<ElementView, SyntaxError>(e),
            },
    {
        if pair.rule != Rule::Element {
            return Err(SyntaxError::NotElement(pair.rule));
        }
        proof {
            lemma_pairs_view(pair.inner, pair.inner.len() as int);
        }
        if pair.inner.len() == 0 {
            return Err(SyntaxError::Missing);
        }
        let inner = &pair.inner[0];
        proof {
            lemma_pairs_view(inner.inner, inner.inner.len() as int);
        }
        match inner.rule {
            Rule::Expr => match Self::parse_expr(inner) {
                Ok(expr) => Ok(Element::Expr(expr)),
                Err(e) => Err(e),
            },
            Rule::String => {
                if inner.inner.len() == 0 {
                    return Err(SyntaxError::Missing);
                }
                Ok(Element::String(Item::new_str(&inner.inner[0])))
            },
            other => Err(SyntaxError::Unexpected(other)),
        }
    }
}

} // verus!
