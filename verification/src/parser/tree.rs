//! The parse tree that a script is read from.

use crate::parser::span::{Span, SpanView};
use crate::text::push_text;
use vstd::prelude::*;

verus! {

/// The kinds of nodes of a parse tree.
#[derive(Debug, Clone, Copy, PartialEq, Eq, Structural)]
pub enum Rule {
    Program,
    Stmt,
    KeywordDefine,
    KeywordLet,
    KeywordAssert,
    KeywordPrint,
    Element,
    Expr,
    Ident,
    String,
    Mul,
    Div,
    Number,
    Percent,
    ImportExpr,
    LetExpr,
    DefineExpr,
    AssertExpr,
    PrintExpr,
    Dimension,
    DimensionIdent,
    DimensionGroupe,
    Operator,
    KeywordSimplify,
    Flag,
    Neg,
    Other,
}

/// The name of a rule in the grammar.
pub open spec fn rule_name(rule: Rule) -> Seq<char> {
    match rule {
        Rule::Program => "program"@,
        Rule::Stmt => "stmt"@,
        Rule::KeywordDefine => "keyword_define"@,
        Rule::KeywordLet => "keyword_let"@,
        Rule::KeywordAssert => "keyword_assert"@,
        Rule::KeywordPrint => "keyword_print"@,
        Rule::Element => "element"@,
        Rule::Expr => "expr"@,
        Rule::Ident => "ident"@,
        Rule::String => "string"@,
        Rule::Mul => "mul"@,
        Rule::Div => "div"@,
        Rule::Number => "number"@,
        Rule::Percent => "percent"@,
        Rule::ImportExpr => "importExpr"@,
        Rule::LetExpr => "letExpr"@,
        Rule::DefineExpr => "defineExpr"@,
        Rule::AssertExpr => "assertExpr"@,
        Rule::PrintExpr => "printExpr"@,
        Rule::Dimension => "dimension"@,
        Rule::DimensionIdent => "dimension_ident"@,
        Rule::DimensionGroupe => "dimension_groupe"@,
        Rule::Operator => "operator"@,
        Rule::KeywordSimplify => "keyword_simplify"@,
        Rule::Flag => "flag"@,
        Rule::Neg => "neg"@,
        Rule::Other => "other"@,
    }
}

impl Rule {
    /// The name of the rule in the grammar.
    pub fn name(&self) -> (r: &'static str)
        ensures
            r@ == rule_name(*self),
    {
        match self {
            Rule::Program => "program",
            Rule::Stmt => "stmt",
            Rule::KeywordDefine => "keyword_define",
            Rule::KeywordLet => "keyword_let",
            Rule::KeywordAssert => "keyword_assert",
            Rule::KeywordPrint => "keyword_print",
            Rule::Element => "element",
            Rule::Expr => "expr",
            Rule::Ident => "ident",
            Rule::String => "string",
            Rule::Mul => "mul",
            Rule::Div => "div",
            Rule::Number => "number",
            Rule::Percent => "percent",
            Rule::ImportExpr => "importExpr",
            Rule::LetExpr => "letExpr",
            Rule::DefineExpr => "defineExpr",
            Rule::AssertExpr => "assertExpr",
            Rule::PrintExpr => "printExpr",
            Rule::Dimension => "dimension",
            Rule::DimensionIdent => "dimension_ident",
            Rule::DimensionGroupe => "dimension_groupe",
            Rule::Operator => "operator",
            Rule::KeywordSimplify => "keyword_simplify",
            Rule::Flag => "flag",
            Rule::Neg => "neg",
            Rule::Other => "other",
        }
    }
}

/// A node of a parse tree: its kind, the text it covers, where that text
/// stands, and the nodes below it in order.
#[derive(Debug)]
pub struct Pair {
    pub rule: Rule,
    pub text: String,
    pub span: Span,
    pub inner: Vec<Pair>,
}

/// What a node of a parse tree says.
pub struct PairView {
    pub rule: Rule,
    pub text: Seq<char>,
    pub span: SpanView,
    pub inner: Seq<PairView>,
}

/// What the first `n` of some nodes say, in order.
pub open spec fn pairs_view(pairs: Vec<Pair>, n: int) -> Seq<PairView>
    decreases pairs, n,
{
    if n <= 0 || n > pairs.len() {
        Seq::empty()
    } else {
        pairs_view(pairs, n - 1).push(pairs[n - 1]@)
    }
}

impl View for Pair {
    type V = PairView;

    open spec fn view(&self) -> PairView
        decreases self,
    {
        PairView {
            rule: self.rule,
            text: self.text@,
            span: self.span@,
            inner: pairs_view(self.inner, self.inner.len() as int),
        }
    }
}

/// The views of the first `n` nodes are `n` in number, and each is the
/// view of the node at its index.
pub proof fn lemma_pairs_view(pairs: Vec<Pair>, n: int)
    requires
        0 <= n <= pairs.len(),
    ensures
        pairs_view(pairs, n).len() == n,
        forall|i: int| 0 <= i < n ==> #[trigger] pairs_view(pairs, n)[i] == pairs[i]@,
    decreases n,
{
    reveal_with_fuel(pairs_view, 2);
    if n > 0 {
        lemma_pairs_view(pairs, n - 1);
    }
}

impl Pair {
    /// A node of the given kind over the given text, with nodes below it.
    pub fn new(rule: Rule, text: &str, span: Span, inner: Vec<Pair>) -> (r: Pair)
        ensures
            r.rule == rule,
            r.text@ == text@,
            r.span == span,
            r.inner == inner,
    {
        Pair { rule, text: text.to_owned(), span, inner }
    }
}

/// Why a parse tree is not the tree of a script.
#[derive(Debug, Clone, Copy, PartialEq, Eq, Structural)]
pub enum SyntaxError {
    /// A statement begins with a node that is no keyword.
    UnknownStatement(Rule),
    /// A node of this kind stands where a statement has to stand.
    NotStmt(Rule),
    /// A node of this kind stands where an expression has to stand.
    NotExpr(Rule),
    /// A node of this kind stands where an element has to stand.
    NotElement(Rule),
    /// A node of this kind stands inside an expression or an element,
    /// where it has no place.
    Unexpected(Rule),
    /// A node has fewer nodes below it than its kind asks for.
    Missing,
    /// The text of a number is no whole number of 32 bits.
    Number,
}

/// The sentence that describes a failure to read a parse tree.
pub open spec fn syntax_text(error: SyntaxError) -> Seq<char> {
    match error {
        SyntaxError::UnknownStatement(rule) => "unkown rule in stmt match: "@ + rule_name(rule),
        SyntaxError::NotStmt(rule) => "Try parsing "@ + rule_name(rule) + " as a Stmt"@,
        SyntaxError::NotExpr(rule) => "Try parsing "@ + rule_name(rule) + " as a Expr"@,
        SyntaxError::NotElement(rule) => "Try parsing "@ + rule_name(rule) + " as a Element"@,
        SyntaxError::Unexpected(rule) => "Unexpected "@ + rule_name(rule),
        SyntaxError::Missing => "A node of the parse tree is incomplete"@,
        SyntaxError::Number => "A power is no whole number"@,
    }
}

impl SyntaxError {
    /// The sentence that describes this failure.
    pub fn to_string(&self) -> (r: String)
        ensures
            r@ == syntax_text(*self),
    {
        let mut out = String::new();
        match self {
            SyntaxError::UnknownStatement(rule) => {
                push_text(&mut out, "unkown rule in stmt match: ");
                push_text(&mut out, rule.name());
            },
            SyntaxError::NotStmt(rule) => {
                push_text(&mut out, "Try parsing ");
                push_text(&mut out, rule.name());
                push_text(&mut out, " as a Stmt");
            },
            SyntaxError::NotExpr(rule) => {
                push_text(&mut out, "Try parsing ");
                push_text(&mut out, rule.name());
                push_text(&mut out, " as a Expr");
            },
            SyntaxError::NotElement(rule) => {
                push_text(&mut out, "Try parsing ");
                push_text(&mut out, rule.name());
                push_text(&mut out, " as a Element");
            },
            SyntaxError::Unexpected(rule) => {
                push_text(&mut out, "Unexpected ");
                push_text(&mut out, rule.name());
            },
            SyntaxError::Missing => {
                push_text(&mut out, "A node of the parse tree is incomplete");
            },
            SyntaxError::Number => {
                push_text(&mut out, "A power is no whole number");
            },
        }
        assert(out@ =~= syntax_text(*self));
        out
    }
}

} // verus!
