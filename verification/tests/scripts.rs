use digify::error::ErrorKind;
use digify::interpreter::Interpreter;
use digify::parser::{Element, Expr, IExpr, IStmt, Istr, Item, Position, Span, Stmt};

fn at(text: &str, line: usize, col: usize) -> Span {
    Span::new(text, Position::new(line, col), Position::new(line, col + text.len()))
}

fn name(text: &str) -> Istr {
    Item::new(text.to_string(), at(text, 1, 1))
}

fn ident(text: &str) -> IExpr {
    Item::new(Expr::Ident(name(text)), at(text, 1, 1))
}

fn mul(left: IExpr, right: IExpr) -> IExpr {
    Item::new(Expr::Mul(Box::new(left), Box::new(right)), at("*", 1, 1))
}

fn div(left: IExpr, right: IExpr) -> IExpr {
    Item::new(Expr::Div(Box::new(left), Box::new(right)), at("/", 1, 1))
}

fn pow(base: IExpr, n: i32) -> IExpr {
    Item::new(Expr::Power(Box::new(base), n), at("^", 1, 1))
}

fn expand(inner: IExpr) -> IExpr {
    Item::new(Expr::Simplify(Box::new(inner)), at("%", 1, 1))
}

fn define(ident: &str, symbol: &str) -> IStmt {
    Item::new(Stmt::Definition(name(ident), name(symbol)), at("define", 1, 1))
}

fn bind(ident: &str, expr: IExpr) -> IStmt {
    Item::new(Stmt::Let(name(ident), expr), at("let", 2, 1))
}

fn assert_same(left: IExpr, right: IExpr) -> IStmt {
    Item::new(Stmt::Assert(left, right), at("assert", 3, 1))
}

fn print_expr(expr: IExpr) -> IStmt {
    Item::new(Stmt::Print(Element::Expr(expr)), at("print", 4, 1))
}

fn print_text(text: &str) -> IStmt {
    Item::new(Stmt::Print(Element::String(name(text))), at("print", 4, 1))
}

fn block(stmts: Vec<IStmt>) -> IStmt {
    Item::new(Stmt::Block(stmts), at("{", 1, 1))
}

fn axioms() -> Vec<IStmt> {
    vec![define("M", "kg"), define("L", "m"), define("T", "s")]
}

#[test]
fn energy_is_force_times_length() {
    let mut stmts = axioms();
    stmts.push(bind("Force", div(mul(ident("M"), ident("L")), pow(ident("T"), 2))));
    stmts.push(bind("Energy", mul(ident("Force"), ident("L"))));
    stmts.push(assert_same(
        ident("Energy"),
        div(mul(ident("M"), pow(ident("L"), 2)), pow(ident("T"), 2)),
    ));
    let mut interpreter = Interpreter::default();
    assert!(interpreter.eval(&block(stmts)).is_ok());
    assert_eq!(interpreter.scopes().depth(), 0);
}

#[test]
fn mass_is_not_length() {
    let mut stmts = axioms();
    stmts.push(assert_same(ident("M"), ident("L")));
    let mut interpreter = Interpreter::default();
    let error = interpreter.eval(&block(stmts)).unwrap_err();
    match error.kind() {
        ErrorKind::AssertFail(expected, actual) => {
            assert_eq!(expected, "kg");
            assert_eq!(actual, "m");
        }
        other => panic!("unexpected failure: {:?}", other),
    }
    assert_eq!(error.span().start().line(), 3);
    assert_eq!(error.to_string(), "3 | assert\n\tAssertion failed: expected kg, got m");
}

#[test]
fn composite_units_fail_with_both_renderings() {
    let mut stmts = axioms();
    stmts.push(assert_same(
        div(mul(ident("M"), ident("L")), pow(ident("T"), 2)),
        mul(ident("M"), pow(ident("L"), -1)),
    ));
    let mut interpreter = Interpreter::default();
    let error = interpreter.eval(&block(stmts)).unwrap_err();
    match error.kind() {
        ErrorKind::AssertFail(expected, actual) => {
            assert_eq!(expected, "L M T^-2");
            assert_eq!(actual, "M L-1");
        }
        other => panic!("unexpected failure: {:?}", other),
    }
}

#[test]
fn undeclared_name_fails_before_any_assertion() {
    let stmts = vec![
        bind("x", ident("y")),
        assert_same(ident("x"), ident("x")),
    ];
    let mut interpreter = Interpreter::default();
    let error = interpreter.eval(&block(stmts)).unwrap_err();
    match error.kind() {
        ErrorKind::VariableNotDeclared(ident) => assert_eq!(ident, "y"),
        other => panic!("unexpected failure: {:?}", other),
    }
    assert_eq!(error.span().start().line(), 1);
}

#[test]
fn redeclaring_in_the_same_block_fails() {
    let mut stmts = axioms();
    stmts.push(bind("v", ident("M")));
    stmts.push(bind("v", ident("L")));
    let mut interpreter = Interpreter::default();
    let error = interpreter.eval(&block(stmts)).unwrap_err();
    match error.kind() {
        ErrorKind::VariableAlreadyDeclared(ident) => assert_eq!(ident, "v"),
        other => panic!("unexpected failure: {:?}", other),
    }
    assert_eq!(error.to_string(), "1 | v\n\tVariable v already declared");
    assert_eq!(interpreter.scopes().depth(), 0);
}

#[test]
fn redeclaring_in_a_nested_block_succeeds() {
    let mut stmts = axioms();
    stmts.push(bind("v", ident("M")));
    stmts.push(block(vec![
        bind("v", ident("L")),
        assert_same(ident("v"), ident("L")),
    ]));
    stmts.push(assert_same(ident("v"), ident("M")));
    let mut interpreter = Interpreter::default();
    assert!(interpreter.eval(&block(stmts)).is_ok());
}

#[test]
fn redefining_an_axiom_in_the_same_block_fails() {
    let mut stmts = axioms();
    stmts.push(define("M", "g"));
    let mut interpreter = Interpreter::default();
    let error = interpreter.eval(&block(stmts)).unwrap_err();
    assert!(matches!(error.kind(), ErrorKind::VariableAlreadyDeclared(ident) if ident == "M"));
}

#[test]
fn a_unit_over_itself_prints_one() {
    let mut stmts = axioms();
    stmts.push(print_expr(mul(ident("M"), pow(ident("M"), -1))));
    let mut interpreter = Interpreter::default();
    assert!(interpreter.eval(&block(stmts)).is_ok());
    assert_eq!(interpreter.output(), &vec!["1".to_string()]);
}

#[test]
fn printing_writes_texts_and_renderings_in_order() {
    let mut stmts = axioms();
    stmts.push(print_text("speed:"));
    stmts.push(bind("Speed", div(ident("L"), ident("T"))));
    stmts.push(print_expr(ident("Speed")));
    stmts.push(print_expr(ident("M")));
    stmts.push(print_expr(pow(ident("M"), 2)));
    stmts.push(print_expr(div(ident("Speed"), ident("T"))));
    stmts.push(print_expr(expand(div(ident("Speed"), ident("T")))));
    let mut interpreter = Interpreter::default();
    assert!(interpreter.eval(&block(stmts)).is_ok());
    let lines = interpreter.take_output();
    assert_eq!(
        lines,
        vec!["speed:", "L T-1", "kg", "M^2", "Speed T-1", "L T^-2"]
    );
    assert!(interpreter.output().is_empty());
}

#[test]
fn output_before_a_failure_is_kept_and_the_scope_is_closed() {
    let mut stmts = axioms();
    stmts.push(print_text("before"));
    stmts.push(assert_same(ident("M"), ident("T")));
    stmts.push(print_text("after"));
    let mut interpreter = Interpreter::default();
    assert!(interpreter.eval(&block(stmts)).is_err());
    assert_eq!(interpreter.output(), &vec!["before".to_string()]);
    assert_eq!(interpreter.scopes().depth(), 0);
}

#[test]
fn a_bound_unit_is_expanded_where_it_is_first_compared() {
    let mut stmts = axioms();
    stmts.push(bind("A", ident("M")));
    stmts.push(bind("B", ident("M")));
    stmts.push(assert_same(ident("B"), ident("M")));
    stmts.push(block(vec![
        bind("M", ident("L")),
        assert_same(ident("A"), ident("L")),
        assert_same(ident("A"), ident("M")),
    ]));
    stmts.push(assert_same(ident("A"), ident("L")));
    stmts.push(assert_same(ident("B"), ident("M")));
    let mut interpreter = Interpreter::default();
    assert!(interpreter.eval(&block(stmts)).is_ok());
}

#[test]
fn an_expansion_once_taken_is_kept() {
    let mut stmts = axioms();
    stmts.push(bind("B", ident("M")));
    stmts.push(assert_same(ident("B"), ident("M")));
    stmts.push(block(vec![
        bind("M", ident("L")),
        assert_same(ident("B"), ident("L")),
    ]));
    let mut interpreter = Interpreter::default();
    let error = interpreter.eval(&block(stmts)).unwrap_err();
    match error.kind() {
        ErrorKind::AssertFail(expected, actual) => {
            assert_eq!(expected, "m");
            assert_eq!(actual, "m");
        }
        other => panic!("unexpected failure: {:?}", other),
    }
}

#[test]
fn a_lone_name_is_rendered_as_what_it_is_bound_to_now() {
    let mut stmts = vec![define("M", "kg"), bind("F", ident("M")), print_expr(ident("F"))];
    stmts.push(block(vec![
        define("M", "g"),
        print_expr(ident("F")),
        print_expr(ident("M")),
        bind("G", pow(ident("F"), 2)),
        bind("H", ident("G")),
        print_expr(ident("H")),
    ]));
    stmts.push(print_expr(ident("F")));
    let mut interpreter = Interpreter::default();
    assert!(interpreter.eval(&block(stmts)).is_ok());
    assert_eq!(interpreter.output(), &vec!["kg", "g", "g", "F^2", "kg"]);
}

#[test]
fn names_that_stand_for_themselves_are_reported() {
    let script = |last: IStmt| {
        let mut stmts = axioms();
        stmts.push(bind("x", ident("M")));
        stmts.push(block(vec![bind("M", ident("x")), last]));
        let mut interpreter = Interpreter::default();
        interpreter.eval(&block(stmts)).unwrap_err()
    };
    let printed = script(print_expr(ident("x")));
    assert!(matches!(printed.kind(), ErrorKind::CyclicDefinition));
    assert_eq!(printed.to_string(), "1 | x\n\tDefinition refers to itself");
    let compared = script(assert_same(ident("x"), ident("L")));
    assert!(matches!(compared.kind(), ErrorKind::CyclicDefinition));
    assert_eq!(compared.span().start().line(), 3);
    let expanded = script(bind("y", expand(ident("M"))));
    assert!(matches!(expanded.kind(), ErrorKind::CyclicDefinition));
}

#[test]
fn a_power_of_zero_adds_nothing() {
    let mut stmts = axioms();
    stmts.push(assert_same(mul(ident("M"), pow(ident("undeclared"), 0)), ident("M")));
    let mut interpreter = Interpreter::default();
    assert!(interpreter.eval(&block(stmts)).is_ok());
}

#[test]
fn a_power_that_does_not_fit_is_reported() {
    let mut stmts = axioms();
    stmts.push(bind("big", pow(pow(ident("M"), i32::MAX), 3)));
    let mut interpreter = Interpreter::default();
    let error = interpreter.eval(&block(stmts)).unwrap_err();
    assert!(matches!(error.kind(), ErrorKind::ExponentOverflow));
    assert_eq!(error.to_string(), "1 | ^\n\tExponent out of range");
}

#[test]
fn an_expansion_that_does_not_fit_is_reported_where_it_is_needed() {
    let mut stmts = axioms();
    stmts.push(bind("a", pow(ident("M"), 65536)));
    stmts.push(bind("b", pow(ident("a"), 65536)));
    stmts.push(bind("c", mul(ident("b"), ident("L"))));
    stmts.push(print_expr(ident("b")));
    stmts.push(print_expr(ident("c")));
    stmts.push(assert_same(ident("a"), pow(ident("M"), 65536)));
    stmts.push(assert_same(ident("c"), ident("c")));
    let mut interpreter = Interpreter::default();
    let error = interpreter.eval(&block(stmts)).unwrap_err();
    assert!(matches!(error.kind(), ErrorKind::ExponentOverflow));
    assert_eq!(error.span().start().line(), 3);
    assert_eq!(interpreter.output(), &vec!["a^65536".to_string(), "L b".to_string()]);
}
