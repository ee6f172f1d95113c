//! Instructions: a flat reading of a script, one instruction a statement.

use crate::dimension::Operator;
use crate::parser::tree::{lemma_pairs_view, pairs_view, Pair, PairView, Rule};
use crate::utils::{int_value, parse_int, unquoted, RemoveQuotes};
use vstd::prelude::*;
use vstd::string::StrSliceExecFns;

verus! {

/// A dimension as it is written: a unit, a power, a product or quotient,
/// or a dimension to be simplified.
#[derive(Debug)]
pub enum DimensionStr {
    Unite(String),
    Power(Box<DimensionStr>, i32),
    Composit(Box<DimensionStr>, Operator, Box<DimensionStr>),
    Simplify(Box<DimensionStr>),
}

impl DimensionStr {
    /// This dimension joined with `other` by `op`.
    pub fn push(self, op: Operator, other: Self) -> (r: Self)
        ensures
            r == DimensionStr::Composit(Box::new(self), op, Box::new(other)),
    {
        Self::Composit(Box::new(self), op, Box::new(other))
    }

    /// This dimension raised to `power`.
    pub fn add_power(self, power: i32) -> (r: Self)
        ensures
            r == DimensionStr::Power(Box::new(self), power),
    {
        Self::Power(Box::new(self), power)
    }
}

/// A dimension as it is written, without simplification.
#[derive(Debug)]
pub enum DimentionStr {
    Unite(String),
    Power(Box<DimentionStr>, i32),
    Composit(Box<DimentionStr>, Operator, Box<DimentionStr>),
}

/// What a print instruction writes: dimensions under an optional flag, or
/// a text.
#[derive(Debug)]
pub enum Printed {
    Dimensions(Option<char>, Vec<DimensionStr>),
    Text(String),
}

/// One instruction of a script.
#[derive(Debug)]
pub enum Instruction {
    Define(String, String),
    Import(String),
    Let(String, DimensionStr),
    Assert(bool, Vec<DimensionStr>),
    Print(Printed),
}

/// All the instructions of a script.
pub type Instructions = Vec<Instruction>;

impl Instruction {
    /// Whether both instructions are of the same kind.
    pub open spec fn same_kind(&self, other: &Instruction) -> bool {
        match (self, other) {
            (Instruction::Define(_, _), Instruction::Define(_, _)) => true,
            (Instruction::Import(_), Instruction::Import(_)) => true,
            (Instruction::Let(_, _), Instruction::Let(_, _)) => true,
            (Instruction::Assert(_, _), Instruction::Assert(_, _)) => true,
            (Instruction::Print(_), Instruction::Print(_)) => true,
            _ => false,
        }
    }

    /// Whether both instructions are of the same kind, whatever they hold.
    pub fn eq(&self, other: &Self) -> (r: bool)
        ensures
            r == self.same_kind(other),
    {
        match self {
            Self::Define(_, _) => match other {
                Self::Define(_, _) => true,
                _ => false,
            },
            Self::Import(_) => match other {
                Self::Import(_) => true,
                _ => false,
            },
            Self::Let(_, _) => match other {
                Self::Let(_, _) => true,
                _ => false,
            },
            Self::Assert(_, _) => match other {
                Self::Assert(_, _) => true,
                _ => false,
            },
            Self::Print(_) => match other {
                Self::Print(_) => true,
                _ => false,
            },
        }
    }

    /// Whether this instruction is a definition.
    pub fn is_define(&self) -> (r: bool)
        ensures
            r == (self is Define),
    {
        match self {
            Self::Define(_, _) => true,
            _ => false,
        }
    }
}

/// What a written dimension says.
pub enum DimensionView {
    Unite(Seq<char>),
    Power(Box<DimensionView>, i32),
    Composit(Box<DimensionView>, Operator, Box<DimensionView>),
    Simplify(Box<DimensionView>),
}

/// What a print instruction says.
pub enum PrintedView {
    Dimensions(Option<char>, Seq<DimensionView>),
    Text(Seq<char>),
}

/// What an instruction says.
pub enum InstructionView {
    Define(Seq<char>, Seq<char>),
    Import(Seq<char>),
    Let(Seq<char>, DimensionView),
    Assert(bool, Seq<DimensionView>),
    Print(PrintedView),
}

/// What a written dimension says.
pub open spec fn dimension_view(dim: DimensionStr) -> DimensionView
    decreases dim,
{
    match dim {
        DimensionStr::Unite(name) => DimensionView::Unite(name@),
        DimensionStr::Power(base, power) => DimensionView::Power(
            Box::new(dimension_view(*base)),
            power,
        ),
        DimensionStr::Composit(left, op, right) => DimensionView::Composit(
            Box::new(dimension_view(*left)),
            op,
            Box::new(dimension_view(*right)),
        ),
        DimensionStr::Simplify(inner) => DimensionView::Simplify(Box::new(dimension_view(*inner))),
    }
}

impl View for DimensionStr {
    type V = DimensionView;

    open spec fn view(&self) -> DimensionView {
        dimension_view(*self)
    }
}

/// What some written dimensions say, in order.
pub open spec fn dimensions_view(dims: Seq<DimensionStr>) -> Seq<DimensionView> {
    Seq::new(dims.len(), |i: int| dims[i]@)
}

impl View for Printed {
    type V = PrintedView;

    open spec fn view(&self) -> PrintedView {
        match self {
            Printed::Dimensions(flag, dims) => PrintedView::Dimensions(*flag, dimensions_view(dims@)),
            Printed::Text(text) => PrintedView::Text(text@),
        }
    }
}

impl View for Instruction {
    type V = InstructionView;

    open spec fn view(&self) -> InstructionView {
        match self {
            Instruction::Define(name, unit) => InstructionView::Define(name@, unit@),
            Instruction::Import(path) => InstructionView::Import(path@),
            Instruction::Let(name, dim) => InstructionView::Let(name@, dim@),
            Instruction::Assert(neg, dims) => InstructionView::Assert(*neg, dimensions_view(dims@)),
            Instruction::Print(printed) => InstructionView::Print(printed@),
        }
    }
}

/// What some instructions say, in order.
pub open spec fn instructions_view(list: Seq<Instruction>) -> Seq<InstructionView> {
    Seq::new(list.len(), |i: int| list[i]@)
}

/// What escaping a text for debugging makes of it: every character is
/// escaped as a reader of Rust source would have to write it.
pub uninterp spec fn debug_escaped(text: Seq<char>) -> Seq<char>;

/// Calls `str::escape_debug` of the standard library and gathers what it
/// yields into a text. The result is taken to depend on the text alone;
/// nothing else is claimed of it.
#[verifier::external_body]
fn escape_debug(text: &str) -> (r: String)
    ensures
        r@ == debug_escaped(text@),
{
    text.escape_debug().to_string()
}

/// The second character of a text, where it has two.
pub open spec fn second(text: Seq<char>) -> Option<char> {
    if text.len() >= 2 {
        Some(text[1])
    } else {
        None
    }
}

/// The second character of a text, where it has two: of an escaped flag,
/// the letter behind its dash.
pub fn second_char(text: &str) -> (r: Option<char>)
    ensures
        r == second(text@),
{
    if text.unicode_len() >= 2 {
        Some(text.get_char(1))
    } else {
        None
    }
}

/// The operator that an operator node stands for.
pub open spec fn read_operator(p: PairView) -> Option<Operator> {
    if p.rule == Rule::Operator && p.inner.len() > 0 {
        if p.inner[0].rule == Rule::Mul {
            Some(Operator::Mul)
        } else if p.inner[0].rule == Rule::Div {
            Some(Operator::Div)
        } else {
            None
        }
    } else {
        None
    }
}

/// The dimension that a node stands for: a dimension node joins the
/// dimensions below it by the operators between them, from left to right,
/// the first one simplified where a simplify keyword stands before it; an
/// identifier node is a unit, raised to a power where one follows; a group
/// node is the dimension inside it.
pub open spec fn read_dimension(p: PairView) -> Option<DimensionView>
    decreases p, 0int,
{
    match p.rule {
        Rule::Dimension => if p.inner.len() == 0 {
            None
        } else if p.inner[0].rule == Rule::KeywordSimplify {
            if p.inner.len() < 2 {
                None
            } else {
                match read_dimension(p.inner[1]) {
                    Some(first) => join_dimensions(
                        p.inner,
                        2,
                        DimensionView::Simplify(Box::new(first)),
                    ),
                    None => None,
                }
            }
        } else {
            match read_dimension(p.inner[0]) {
                Some(first) => join_dimensions(p.inner, 1, first),
                None => None,
            }
        },
        Rule::DimensionIdent => if p.inner.len() == 0 {
            None
        } else if p.inner.len() == 1 {
            Some(DimensionView::Unite(p.inner[0].text))
        } else {
            match int_value(p.inner[1].text) {
                Some(power) => Some(
                    DimensionView::Power(Box::new(DimensionView::Unite(p.inner[0].text)), power),
                ),
                None => None,
            }
        },
        Rule::DimensionGroupe => if p.inner.len() == 0 {
            None
        } else {
            read_dimension(p.inner[0])
        },
        _ => None,
    }
}

/// The dimension read so far joined with those that the nodes from index
/// `i` on stand for, an operator before each.
pub open spec fn join_dimensions(children: Seq<PairView>, i: int, acc: DimensionView) -> Option<
    DimensionView,
>
    decreases children, children.len() - i,
{
    if i < 0 || i >= children.len() {
        Some(acc)
    } else if i + 1 >= children.len() {
        None
    } else {
        match (read_operator(children[i]), read_dimension(children[i + 1])) {
            (Some(op), Some(dim)) => join_dimensions(
                children,
                i + 2,
                DimensionView::Composit(Box::new(acc), op, Box::new(dim)),
            ),
            _ => None,
        }
    }
}

/// The dimensions that the nodes from index `from` on stand for, up to
/// index `n`; nothing where one of them stands for none.
pub open spec fn read_dimensions(children: Seq<PairView>, from: int, n: int) -> Option<
    Seq<DimensionView>,
>
    decreases n - from,
{
    if n <= from {
        Some(Seq::empty())
    } else {
        match (read_dimensions(children, from, n - 1), read_dimension(children[n - 1])) {
            (Some(head), Some(last)) => Some(head.push(last)),
            _ => None,
        }
    }
}

/// The instruction that a node stands for, by the kind of the statement
/// below it; nothing where the node is no statement or lacks a part.
pub open spec fn read_instruction(p: PairView) -> Option<InstructionView> {
    if p.rule != Rule::Expr || p.inner.len() == 0 {
        None
    } else {
        let v = p.inner[0].inner;
        let n = v.len() as int;
        match p.inner[0].rule {
            Rule::ImportExpr => if n < 2 {
                None
            } else {
                Some(InstructionView::Import(unquoted(v[1].text)))
            },
            Rule::LetExpr => if n < 3 {
                None
            } else {
                match read_dimension(v[2]) {
                    Some(dim) => Some(InstructionView::Let(v[1].text, dim)),
                    None => None,
                }
            },
            Rule::DefineExpr => if n < 3 {
                None
            } else {
                Some(InstructionView::Define(v[1].text, unquoted(v[2].text)))
            },
            Rule::AssertExpr => if n < 2 {
                None
            } else if v[1].rule == Rule::Neg {
                match read_dimensions(v, 2, n) {
                    Some(dims) => Some(InstructionView::Assert(true, dims)),
                    None => None,
                }
            } else {
                match read_dimensions(v, 1, n) {
                    Some(dims) => Some(InstructionView::Assert(false, dims)),
                    None => None,
                }
            },
            Rule::PrintExpr => if n < 2 {
                None
            } else if v[1].rule == Rule::Flag {
                match (second(debug_escaped(v[1].text)), read_dimensions(v, 2, n)) {
                    (Some(flag), Some(dims)) => Some(
                        InstructionView::Print(PrintedView::Dimensions(Some(flag), dims)),
                    ),
                    _ => None,
                }
            } else if v[1].rule == Rule::Dimension {
                match read_dimensions(v, 2, n) {
                    Some(dims) => Some(InstructionView::Print(PrintedView::Dimensions(None, dims))),
                    None => None,
                }
            } else if v[1].rule == Rule::String {
                Some(InstructionView::Print(PrintedView::Text(v[1].text)))
            } else {
                None
            },
            _ => None,
        }
    }
}

/// The instructions that the first `n` nodes stand for, in order; a node
/// that stands for none is passed over.
pub open spec fn read_instructions(pairs: Seq<PairView>, n: int) -> Seq<InstructionView>
    decreases n,
{
    if n <= 0 {
        Seq::empty()
    } else {
        match read_instruction(pairs[n - 1]) {
            Some(instruction) => read_instructions(pairs, n - 1).push(instruction),
            None => read_instructions(pairs, n - 1),
        }
    }
}

/// The operator that an operator node stands for.
pub fn pair_into_operator(pair: &Pair) -> (r: Option<Operator>)
    ensures
        r == read_operator(pair@),
{
    proof {
        lemma_pairs_view(pair.inner, pair.inner.len() as int);
    }
    if pair.rule == Rule::Operator && pair.inner.len() > 0 {
        match pair.inner[0].rule {
            Rule::Mul => Some(Operator::Mul),
            Rule::Div => Some(Operator::Div),
            _ => None,
        }
    } else {
        None
    }
}

/// The dimension that a node stands for.
pub fn parse_dimension_str(pair: &Pair) -> (r: Option<DimensionStr>)
    ensures
        match r {
            Some(dim) => read_dimension(pair@) == Some(dim@),
            None => read_dimension(pair@) is None,
        },
    decreases *pair,
{
    let inner = &pair.inner;
    proof {
        lemma_pairs_view(pair.inner, pair.inner.len() as int);
        reveal_with_fuel(read_dimension, 2);
        reveal_with_fuel(dimension_view, 3);
    }
    match pair.rule {
        Rule::Dimension => {
            if inner.len() == 0 {
                return None;
            }
            let mut next: usize = 1;
            let mut dimension = if inner[0].rule == Rule::KeywordSimplify {
                if inner.len() < 2 {
                    return None;
                }
                next = 2;
                proof {
                    assert(decreases_to!(pair.inner => pair.inner[1]));
                }
                match parse_dimension_str(&inner[1]) {
                    Some(first) => DimensionStr::Simplify(Box::new(first)),
                    None => {
                        return None;
                    },
                }
            } else {
                proof {
                    assert(decreases_to!(pair.inner => pair.inner[0]));
                }
                match parse_dimension_str(&inner[0]) {
                    Some(first) => first,
                    None => {
                        return None;
                    },
                }
            };
            while next < inner.len()
                invariant
                    next <= inner.len() + 1,
                    inner == &pair.inner,
                    pair@.inner.len() == pair.inner.len(),
                    forall|k: int|
                        0 <= k < pair.inner.len() ==> #[trigger] pair@.inner[k] == pair.inner[k]@,
                    read_dimension(pair@) == join_dimensions(pair@.inner, next as int, dimension@),
                decreases inner.len() + 1 - next,
            {
                proof {
                    reveal_with_fuel(join_dimensions, 2);
                }
                if next + 1 >= inner.len() {
                    return None;
                }
                proof {
                    assert(decreases_to!(pair.inner => pair.inner[next as int + 1]));
                }
                let op = match pair_into_operator(&inner[next]) {
                    Some(op) => op,
                    None => {
                        return None;
                    },
                };
                let dim = match parse_dimension_str(&inner[next + 1]) {
                    Some(dim) => dim,
                    None => {
                        return None;
                    },
                };
                dimension = dimension.push(op, dim);
                next += 2;
            }
            proof {
                reveal_with_fuel(join_dimensions, 2);
            }
            Some(dimension)
        },
        Rule::DimensionIdent => {
            if inner.len() == 0 {
                return None;
            }
            let dimension = DimensionStr::Unite(inner[0].text.clone());
            if inner.len() == 1 {
                Some(dimension)
            } else {
                match parse_int(inner[1].text.as_str()) {
                    Some(power) => Some(dimension.add_power(power)),
                    None => None,
                }
            }
        },
        Rule::DimensionGroupe => {
            if inner.len() == 0 {
                return None;
            }
            proof {
                assert(decreases_to!(pair.inner => pair.inner[0]));
            }
            parse_dimension_str(&inner[0])
        },
        _ => None,
    }
}

/// The dimensions that the nodes from index `from` on stand for.
fn parse_dimensions(children: &Vec<Pair>, from: usize) -> (r: Option<Vec<DimensionStr>>)
    ensures
        match r {
            Some(dims) => read_dimensions(
                pairs_view(*children, children.len() as int),
                from as int,
                children.len() as int,
            ) == Some(dimensions_view(dims@)),
            None => read_dimensions(
                pairs_view(*children, children.len() as int),
                from as int,
                children.len() as int,
            ) is None,
        },
{
    let ghost views = pairs_view(*children, children.len() as int);
    let mut dims: Vec<DimensionStr> = Vec::new();
    let mut i: usize = from;
    proof {
        lemma_pairs_view(*children, children.len() as int);
        assert(dimensions_view(dims@) =~= Seq::<DimensionView>::empty());
        if from >= children.len() {
            assert(read_dimensions(views, from as int, children.len() as int) == Some(
                Seq::<DimensionView>::empty(),
            ));
        }
    }
    if from >= children.len() {
        return Some(dims);
    }
    while i < children.len()
        invariant
            from <= i <= children.len(),
            views == pairs_view(*children, children.len() as int),
            views.len() == children.len(),
            forall|k: int| 0 <= k < children.len() ==> #[trigger] views[k] == children[k]@,
            read_dimensions(views, from as int, i as int) == Some(dimensions_view(dims@)),
        decreases children.len() - i,
    {
        let ghost before = dims@;
        match parse_dimension_str(&children[i]) {
            Some(dim) => {
                dims.push(dim);
                proof {
                    assert(dimensions_view(dims@) =~= dimensions_view(before).push(dim@));
                }
            },
            None => {
                proof {
                    lemma_dimensions_fail(views, from as int, i as int + 1, children.len() as int);
                }
                return None;
            },
        }
        i += 1;
    }
    Some(dims)
}

/// Once a node stands for no dimension, no longer run of nodes does.
proof fn lemma_dimensions_fail(children: Seq<PairView>, from: int, n: int, m: int)
    requires
        from <= n <= m,
        read_dimensions(children, from, n) is None,
    ensures
        read_dimensions(children, from, m) is None,
    decreases m - n,
{
    if n < m {
        lemma_dimensions_fail(children, from, n, m - 1);
    }
}

/// The instruction that a node stands for.
fn into_instruction(pair: &Pair) -> (r: Option<Instruction>)
    ensures
        match r {
            Some(instruction) => read_instruction(pair@) == Some(instruction@),
            None => read_instruction(pair@) is None,
        },
{
    proof {
        lemma_pairs_view(pair.inner, pair.inner.len() as int);
    }
    if pair.rule != Rule::Expr || pair.inner.len() == 0 {
        return None;
    }
    let stmt = &pair.inner[0];
    let values = &stmt.inner;
    let n = values.len();
    proof {
        lemma_pairs_view(stmt.inner, stmt.inner.len() as int);
    }
    match stmt.rule {
        Rule::ImportExpr => {
            if n < 2 {
                return None;
            }
            let mut text = values[1].text.as_str();
            let path = text.remove_quotes();
            Some(Instruction::Import(path.to_owned()))
        },
        Rule::LetExpr => {
            if n < 3 {
                return None;
            }
            match parse_dimension_str(&values[2]) {
                Some(dim) => Some(Instruction::Let(values[1].text.clone(), dim)),
                None => None,
            }
        },
        Rule::DefineExpr => {
            if n < 3 {
                return None;
            }
            let mut text = values[2].text.as_str();
            let unit = text.remove_quotes();
            Some(Instruction::Define(values[1].text.clone(), unit.to_owned()))
        },
        Rule::AssertExpr => {
            if n < 2 {
                return None;
            }
            let neg = values[1].rule == Rule::Neg;
            let from: usize = if neg {
                2
            } else {
                1
            };
            match parse_dimensions(values, from) {
                Some(dims) => Some(Instruction::Assert(neg, dims)),
                None => None,
            }
        },
        Rule::PrintExpr => {
            if n < 2 {
                return None;
            }
            match values[1].rule {
                Rule::Flag => {
                    let escaped = escape_debug(values[1].text.as_str());
                    let flag = second_char(escaped.as_str());
                    let dims = parse_dimensions(values, 2);
                    match (flag, dims) {
                        (Some(flag), Some(dims)) => Some(
                            Instruction::Print(Printed::Dimensions(Some(flag), dims)),
                        ),
                        _ => None,
                    }
                },
                Rule::Dimension => {
                    match parse_dimensions(values, 2) {
                        Some(dims) => Some(Instruction::Print(Printed::Dimensions(None, dims))),
                        None => None,
                    }
                },
                Rule::String => Some(Instruction::Print(Printed::Text(values[1].text.clone()))),
                _ => None,
            }
        },
        _ => None,
    }
}

/// The instructions that the nodes of a script stand for, in order. A node
/// that is no statement, or lacks a part of its statement, is passed over.
pub fn into_intructions(ast: &Vec<Pair>) -> (r: Instructions)
    ensures
        instructions_view(r@) == read_instructions(
            pairs_view(*ast, ast.len() as int),
            ast.len() as int,
        ),
{
    let ghost views = pairs_view(*ast, ast.len() as int);
    let mut instructions: Instructions = Vec::new();
    let mut i: usize = 0;
    proof {
        lemma_pairs_view(*ast, ast.len() as int);
        assert(instructions_view(instructions@) =~= Seq::<InstructionView>::empty());
    }
    while i < ast.len()
        invariant
            i <= ast.len(),
            views == pairs_view(*ast, ast.len() as int),
            views.len() == ast.len(),
            forall|k: int| 0 <= k < ast.len() ==> #[trigger] views[k] == ast[k]@,
            instructions_view(instructions@) == read_instructions(views, i as int),
        decreases ast.len() - i,
    {
        let ghost before = instructions@;
        match into_instruction(&ast[i]) {
            Some(instruction) => {
                instructions.push(instruction);
                proof {
                    assert(instructions_view(instructions@) =~= instructions_view(before).push(
                        instruction@,
                    ));
                }
            },
            None => {},
        }
        i += 1;
    }
    instructions
}

/// The entries of `s` before index `n` that are definitions if `defines`
/// is set, and those that are none if it is not, in their order.
pub open spec fn picked(s: Seq<InstructionView>, n: int, defines: bool) -> Seq<InstructionView>
    decreases n,
{
    if n <= 0 {
        Seq::empty()
    } else if (s[n - 1] is Define) == defines {
        picked(s, n - 1, defines).push(s[n - 1])
    } else {
        picked(s, n - 1, defines)
    }
}

/// Instructions in order: the definitions first, then the others, each
/// group in the order it came in.
pub open spec fn ordered(s: Seq<InstructionView>) -> Seq<InstructionView> {
    picked(s, s.len() as int, true) + picked(s, s.len() as int, false)
}

/// Puts instructions in order: the definitions first, then the others,
/// each group in the order it came in.
pub fn sort_instructions(instructions: Instructions) -> (r: Instructions)
    ensures
        instructions_view(r@) == ordered(instructions_view(instructions@)),
{
    let ghost given = instructions_view(instructions@);
    let count = instructions.len();
    let mut rest = instructions;
    let mut defines: Vec<Instruction> = Vec::new();
    let mut others: Vec<Instruction> = Vec::new();
    let mut done: usize = 0;
    proof {
        assert(instructions_view(defines@) =~= picked(given, 0, true));
        assert(instructions_view(others@) =~= picked(given, 0, false));
    }
    while rest.len() > 0
        invariant
            count == given.len(),
            done + rest@.len() == given.len(),
            instructions_view(rest@) == given.skip(done as int),
            instructions_view(defines@) == picked(given, done as int, true),
            instructions_view(others@) == picked(given, done as int, false),
        decreases rest@.len(),
    {
        let ghost before = rest@;
        let ghost first = defines@;
        let ghost second = others@;
        let next = rest.remove(0);
        proof {
            assert(instructions_view(before)[0] == given[done as int]);
            assert(next@ == given[done as int]);
            assert(instructions_view(rest@) =~= given.skip(done as int + 1)) by {
                assert forall|k: int| 0 <= k < rest@.len() implies instructions_view(rest@)[k]
                    == given.skip(done as int + 1)[k] by {
                    assert(instructions_view(before)[k + 1] == given.skip(done as int)[k + 1]);
                }
            }
        }
        if next.is_define() {
            defines.push(next);
            proof {
                assert(instructions_view(defines@) =~= instructions_view(first).push(next@));
            }
        } else {
            others.push(next);
            proof {
                assert(instructions_view(others@) =~= instructions_view(second).push(next@));
            }
        }
        done += 1;
    }
    let ghost first = defines@;
    let ghost second = others@;
    defines.append(&mut others);
    proof {
        assert(instructions_view(defines@) =~= instructions_view(first) + instructions_view(
            second,
        ));
    }
    defines
}

/// The instructions that the nodes of a script stand for, put in order:
/// the definitions first.
pub fn into_intructions_sorted(ast: &Vec<Pair>) -> (r: Instructions)
    ensures
        instructions_view(r@) == ordered(
            read_instructions(pairs_view(*ast, ast.len() as int), ast.len() as int),
        ),
{
    sort_instructions(into_intructions(ast))
}

} // verus!
