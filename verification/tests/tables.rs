use digify::dimension::{Operator, RawDimension};
use digify::error::{DigifyError, ErrorKind};
use digify::interpreter::element::Element;
use digify::interpreter::scope::TowerScope;
use digify::interpreter::variable::Unit;
use digify::parse::{sort_instructions, DimensionStr, Instruction, Printed};
use digify::parser::{Position, Span};
use digify::text::{push_decimal, push_text};
use digify::vtable::{Digirror, Name, VTable};
use std::rc::Rc;

fn named(text: &str) -> Name {
    let mut name = Name::default();
    name.add_name(text.to_string());
    name
}

fn unite(text: &str) -> RawDimension {
    RawDimension::Unite(Rc::new(text.to_string()))
}

#[test]
fn a_table_takes_each_name_once() {
    let mut table = VTable::default();
    assert!(!table.contains(&named("M")));
    assert!(table.push(named("M"), unite("kg")).is_ok());
    assert!(table.push(named("L"), unite("m")).is_ok());
    assert!(table.contains(&named("M")));
    assert!(matches!(table.push(named("M"), unite("g")), Err(Digirror::NameAlreadyExist(n)) if n.as_str() == "M"));
    assert!(!table.contains(&named("")));
    assert_eq!(Name::default().as_str(), "");
}

fn kind(instruction: &Instruction) -> String {
    match instruction {
        Instruction::Define(name, _) => format!("define {}", name),
        Instruction::Import(path) => format!("import {}", path),
        Instruction::Let(name, _) => format!("let {}", name),
        Instruction::Assert(_, _) => "assert".to_string(),
        Instruction::Print(_) => "print".to_string(),
    }
}

#[test]
fn definitions_come_first_and_the_order_is_kept() {
    let sorted = sort_instructions(vec![
        Instruction::Let("a".to_string(), DimensionStr::Unite("M".to_string())),
        Instruction::Define("M".to_string(), "kg".to_string()),
        Instruction::Print(Printed::Text("hello".to_string())),
        Instruction::Import("si".to_string()),
        Instruction::Define("L".to_string(), "m".to_string()),
        Instruction::Assert(false, vec![]),
        Instruction::Let("b".to_string(), DimensionStr::Unite("L".to_string())),
    ]);
    let kinds: Vec<String> = sorted.iter().map(kind).collect();
    assert_eq!(
        kinds,
        vec!["define M", "define L", "let a", "print", "import si", "assert", "let b"]
    );
    assert!(sort_instructions(vec![]).is_empty());
}

#[test]
fn instructions_are_equal_when_of_one_kind() {
    let a = Instruction::Define("M".to_string(), "kg".to_string());
    let b = Instruction::Define("L".to_string(), "m".to_string());
    let c = Instruction::Import("M".to_string());
    assert!(a.eq(&b));
    assert!(!a.eq(&c));
    assert!(c.eq(&c));
    assert!(a.is_define());
    assert!(!c.is_define());
    assert!(Instruction::Print(Printed::Dimensions(Some('s'), vec![])).eq(&Instruction::Print(Printed::Text(String::new()))));
}

#[test]
fn dimensions_are_written_as_trees() {
    let speed = DimensionStr::Unite("L".to_string())
        .push(Operator::Div, DimensionStr::Unite("T".to_string()))
        .add_power(-2);
    match speed {
        DimensionStr::Power(base, -2) => match *base {
            DimensionStr::Composit(left, Operator::Div, right) => {
                assert!(matches!(*left, DimensionStr::Unite(ref u) if u == "L"));
                assert!(matches!(*right, DimensionStr::Unite(ref u) if u == "T"));
            }
            _ => panic!("no quotient"),
        },
        _ => panic!("no power"),
    }
}

#[test]
fn numbers_are_written_in_decimal() {
    for n in [0u64, 1, 9, 10, 11, 99, 100, 101, 4294967295, u64::MAX] {
        let mut out = String::from("n=");
        push_decimal(&mut out, n);
        push_text(&mut out, ";");
        assert_eq!(out, format!("n={};", n));
    }
}

fn error(kind: ErrorKind, line: usize, col: usize) -> DigifyError {
    DigifyError::new(kind, Span::new("let x = y", Position::new(line, col), Position::new(line, col + 9)))
}

#[test]
fn a_failure_is_reported_with_its_line_and_text() {
    assert_eq!(
        error(ErrorKind::VariableNotDeclared("y".to_string()), 12, 1).to_string(),
        "12 | let x = y\n\tVariable y not declared"
    );
    assert_eq!(
        error(ErrorKind::VariableAlreadyDeclared("x".to_string()), 3, 5).to_string(),
        "3 |  ... let x = y\n\tVariable x already declared"
    );
    assert_eq!(
        error(ErrorKind::AssertFail("kg".to_string(), "m s-1".to_string()), 0, 0).to_string(),
        "0 |  ... let x = y\n\tAssertion failed: expected kg, got m s-1"
    );
    assert_eq!(
        error(ErrorKind::ExponentOverflow, 1, 1).to_string(),
        "1 | let x = y\n\tExponent out of range"
    );
    assert_eq!(
        error(ErrorKind::CyclicDefinition, 2, 1).to_string(),
        "2 | let x = y\n\tDefinition refers to itself"
    );
    assert_eq!(ErrorKind::VariableNotDeclared("é".to_string()).describe(), "Variable é not declared");
    let e = error(ErrorKind::ExponentOverflow, 1, 2);
    assert!(matches!(e.kind(), ErrorKind::ExponentOverflow));
    assert_eq!(e.span().input(), "let x = y");
    assert!(matches!(e.into_kind(), ErrorKind::ExponentOverflow));
}

#[test]
fn an_element_is_written_as_its_text_or_its_rendering() {
    let mut scopes = TowerScope::default();
    scopes.enter_scope();
    assert_eq!(Element::String("as it stands".to_string()).to_line(&scopes).unwrap(), "as it stands");
    assert_eq!(Element::Expr(Unit::default()).to_line(&scopes).unwrap(), "1");
}
