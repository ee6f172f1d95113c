use digify::dimension::Operator;
use digify::parse::{
    into_intructions, into_intructions_sorted, pair_into_operator, parse_dimension_str,
    second_char, DimensionStr, Instruction, Printed,
};
use digify::parser::{Pair, Rule, Span};

fn leaf(rule: Rule, text: &str) -> Pair {
    Pair::new(rule, text, Span::default(), Vec::new())
}

fn node(rule: Rule, inner: Vec<Pair>) -> Pair {
    Pair::new(rule, "", Span::default(), inner)
}

fn unit(name: &str) -> Pair {
    node(Rule::DimensionIdent, vec![leaf(Rule::Ident, name)])
}

fn unit_to(name: &str, power: &str) -> Pair {
    node(Rule::DimensionIdent, vec![leaf(Rule::Ident, name), leaf(Rule::Number, power)])
}

fn operator(rule: Rule) -> Pair {
    node(Rule::Operator, vec![leaf(rule, "")])
}

fn shape(dim: &DimensionStr) -> String {
    match dim {
        DimensionStr::Unite(name) => name.clone(),
        DimensionStr::Power(base, power) => format!("({} ^ {})", shape(base), power),
        DimensionStr::Composit(left, Operator::Mul, right) => {
            format!("({} * {})", shape(left), shape(right))
        }
        DimensionStr::Composit(left, Operator::Div, right) => {
            format!("({} / {})", shape(left), shape(right))
        }
        DimensionStr::Simplify(inner) => format!("%{}", shape(inner)),
    }
}

fn force() -> Pair {
    node(
        Rule::Dimension,
        vec![
            unit("M"),
            operator(Rule::Mul),
            unit("L"),
            operator(Rule::Div),
            unit_to("T", "2"),
        ],
    )
}

fn statement(rule: Rule, mut parts: Vec<Pair>) -> Pair {
    let mut inner = vec![leaf(Rule::Other, "keyword")];
    inner.append(&mut parts);
    node(Rule::Expr, vec![node(rule, inner)])
}

fn show(instruction: &Instruction) -> String {
    let all = |dims: &Vec<DimensionStr>| dims.iter().map(shape).collect::<Vec<_>>().join(", ");
    match instruction {
        Instruction::Define(name, unit) => format!("define {} {}", name, unit),
        Instruction::Import(path) => format!("import {}", path),
        Instruction::Let(name, dim) => format!("let {} = {}", name, shape(dim)),
        Instruction::Assert(neg, dims) => format!("assert {} [{}]", neg, all(dims)),
        Instruction::Print(Printed::Dimensions(flag, dims)) => {
            format!("print {:?} [{}]", flag, all(dims))
        }
        Instruction::Print(Printed::Text(text)) => format!("print {}", text),
    }
}

#[test]
fn an_operator_node_is_a_product_or_a_quotient() {
    assert_eq!(pair_into_operator(&operator(Rule::Mul)), Some(Operator::Mul));
    assert_eq!(pair_into_operator(&operator(Rule::Div)), Some(Operator::Div));
    assert_eq!(pair_into_operator(&operator(Rule::Ident)), None);
    assert_eq!(pair_into_operator(&node(Rule::Operator, vec![])), None);
    assert_eq!(pair_into_operator(&leaf(Rule::Mul, "*")), None);
}

#[test]
fn a_dimension_is_joined_from_left_to_right() {
    assert_eq!(shape(&parse_dimension_str(&force()).unwrap()), "((M * L) / (T ^ 2))");
    let group = node(Rule::DimensionGroupe, vec![force()]);
    let nested = node(
        Rule::Dimension,
        vec![leaf(Rule::KeywordSimplify, "%"), group, operator(Rule::Div), unit_to("K", "-1")],
    );
    assert_eq!(
        shape(&parse_dimension_str(&nested).unwrap()),
        "(%((M * L) / (T ^ 2)) / (K ^ -1))"
    );
    assert_eq!(shape(&parse_dimension_str(&unit("M")).unwrap()), "M");
}

#[test]
fn what_is_no_dimension_stands_for_none() {
    assert!(parse_dimension_str(&leaf(Rule::Ident, "M")).is_none());
    assert!(parse_dimension_str(&node(Rule::Dimension, vec![])).is_none());
    assert!(parse_dimension_str(&node(Rule::DimensionIdent, vec![])).is_none());
    assert!(parse_dimension_str(&node(Rule::DimensionGroupe, vec![])).is_none());
    assert!(parse_dimension_str(&unit_to("M", "two")).is_none());
    assert!(parse_dimension_str(&unit_to("M", " 2")).is_none());
    let dangling = node(Rule::Dimension, vec![unit("M"), operator(Rule::Mul)]);
    assert!(parse_dimension_str(&dangling).is_none());
    let unjoined = node(Rule::Dimension, vec![unit("M"), unit("L"), unit("T")]);
    assert!(parse_dimension_str(&unjoined).is_none());
    let alone = node(Rule::Dimension, vec![leaf(Rule::KeywordSimplify, "%")]);
    assert!(parse_dimension_str(&alone).is_none());
}

#[test]
fn instructions_are_read_by_the_kind_of_their_statement() {
    let script = vec![
        statement(Rule::ImportExpr, vec![leaf(Rule::String, "\"si.dgf\"")]),
        leaf(Rule::Other, "not a statement"),
        statement(Rule::DefineExpr, vec![leaf(Rule::Ident, "M"), leaf(Rule::String, "\"kg\"")]),
        statement(Rule::LetExpr, vec![leaf(Rule::Ident, "F"), force()]),
        statement(Rule::AssertExpr, vec![force(), unit("F")]),
        statement(Rule::AssertExpr, vec![leaf(Rule::Neg, "!"), force(), unit("M")]),
        statement(Rule::PrintExpr, vec![leaf(Rule::Flag, "-s"), force(), unit("M")]),
        statement(Rule::PrintExpr, vec![force(), unit("M")]),
        statement(Rule::PrintExpr, vec![leaf(Rule::String, "\"hello\"")]),
        statement(Rule::LetExpr, vec![leaf(Rule::Ident, "broken")]),
        statement(Rule::Other, vec![]),
        node(Rule::Expr, vec![]),
    ];
    let read: Vec<String> = into_intructions(&script).iter().map(show).collect();
    assert_eq!(
        read,
        vec![
            "import si.dgf",
            "define M kg",
            "let F = ((M * L) / (T ^ 2))",
            "assert false [((M * L) / (T ^ 2)), F]",
            "assert true [((M * L) / (T ^ 2)), M]",
            "print Some('s') [((M * L) / (T ^ 2)), M]",
            "print None [M]",
            "print \"hello\"",
        ]
    );
    let sorted: Vec<String> = into_intructions_sorted(&script).iter().map(show).collect();
    assert_eq!(sorted[0], "define M kg");
    assert_eq!(sorted[1], "import si.dgf");
    assert_eq!(sorted.len(), 8);
}

#[test]
fn a_flag_is_the_second_character_of_its_escaped_text() {
    let flagged = |text: &str| {
        let script = vec![statement(Rule::PrintExpr, vec![leaf(Rule::Flag, text)])];
        into_intructions(&script).iter().map(show).collect::<Vec<_>>()
    };
    assert_eq!(flagged("-s"), vec!["print Some('s') []"]);
    assert_eq!(flagged("\ts"), vec!["print Some('t') []"]);
    assert_eq!(flagged("\"s"), vec!["print Some('\"') []"]);
    assert_eq!(flagged("é-"), vec!["print Some('-') []"]);
    assert_eq!(flagged("\n"), vec!["print Some('n') []"]);
    assert!(flagged("-").is_empty());
    assert!(flagged("").is_empty());
    assert_eq!(second_char("ab"), Some('b'));
    assert_eq!(second_char("é€"), Some('€'));
    assert_eq!(second_char("a"), None);
    assert_eq!(second_char(""), None);
}

#[test]
fn a_dimension_that_cannot_be_read_spoils_its_statement() {
    let script = vec![
        statement(Rule::AssertExpr, vec![force(), leaf(Rule::Ident, "M")]),
        statement(Rule::PrintExpr, vec![leaf(Rule::Flag, "-s"), leaf(Rule::Ident, "M")]),
        statement(Rule::AssertExpr, vec![unit("M")]),
    ];
    let read: Vec<String> = into_intructions(&script).iter().map(show).collect();
    assert_eq!(read, vec!["assert false [M]"]);
}
