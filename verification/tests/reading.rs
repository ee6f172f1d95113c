use digify::parser::{
    DigifyParser, Element, Expr, IExpr, Item, Pair, Position, Rule, Span, Stmt, SyntaxError,
};
use digify::utils::{is_whitespace, parse_int, trim, RemoveQuotes};

fn at(text: &str, col: usize) -> Span {
    Span::new(text, Position::new(1, col), Position::new(1, col + text.len()))
}

fn leaf(rule: Rule, text: &str, col: usize) -> Pair {
    Pair::new(rule, text, at(text, col), Vec::new())
}

fn node(rule: Rule, text: &str, col: usize, inner: Vec<Pair>) -> Pair {
    Pair::new(rule, text, at(text, col), inner)
}

fn shape(expr: &IExpr) -> String {
    match expr.item() {
        Expr::Ident(name) => name.as_str().to_string(),
        Expr::Mul(l, r) => format!("({} * {})", shape(l), shape(r)),
        Expr::Div(l, r) => format!("({} / {})", shape(l), shape(r)),
        Expr::Power(base, n) => format!("({} ^ {})", shape(base), n),
        Expr::Simplify(inner) => format!("%{}", shape(inner)),
        Expr::Empty => "_".to_string(),
    }
}

fn force() -> Pair {
    node(
        Rule::Expr,
        "M * L / T^2",
        9,
        vec![
            leaf(Rule::Ident, "M", 9),
            leaf(Rule::Mul, "*", 11),
            leaf(Rule::Ident, "L", 13),
            leaf(Rule::Div, "/", 15),
            leaf(Rule::Ident, "T", 17),
            leaf(Rule::Number, "2", 19),
        ],
    )
}

#[test]
fn an_expression_is_read_from_left_to_right() {
    let expr = DigifyParser::parse_expr(&force()).unwrap();
    assert_eq!(shape(&expr), "(((M * L) / T) ^ 2)");
    assert_eq!(expr.span.input(), "2");
    assert_eq!(expr.span.start().col(), 19);
    match expr.item() {
        Expr::Power(base, 2) => {
            assert_eq!(base.span.input(), "M * L / T^2");
            assert_eq!(base.span._end().col(), 20);
        }
        _ => panic!("no power"),
    }
}

#[test]
fn groups_percent_signs_and_negative_powers() {
    let group = node(
        Rule::Expr,
        "L / T",
        6,
        vec![leaf(Rule::Ident, "L", 6), leaf(Rule::Div, "/", 8), leaf(Rule::Ident, "T", 10)],
    );
    let pair = node(
        Rule::Expr,
        "%M * (L / T)^ -3 ",
        1,
        vec![
            leaf(Rule::Percent, "%", 1),
            leaf(Rule::Ident, "M", 2),
            leaf(Rule::Mul, "*", 4),
            group,
            leaf(Rule::Number, " -3 ", 13),
        ],
    );
    let expr = DigifyParser::parse_expr(&pair).unwrap();
    assert_eq!(shape(&expr), "((%M * (L / T)) ^ -3)");
    let open = node(Rule::Expr, "M *", 1, vec![leaf(Rule::Ident, "M", 1), leaf(Rule::Mul, "*", 3)]);
    assert_eq!(shape(&DigifyParser::parse_expr(&open).unwrap()), "(M * _)");
    let empty = node(Rule::Expr, "", 1, vec![]);
    assert_eq!(shape(&DigifyParser::parse_expr(&empty).unwrap()), "_");
}

#[test]
fn what_is_no_expression_is_refused() {
    assert_eq!(
        DigifyParser::parse_expr(&leaf(Rule::Ident, "M", 1)).unwrap_err(),
        SyntaxError::NotExpr(Rule::Ident)
    );
    let odd = node(Rule::Expr, "M let", 1, vec![leaf(Rule::Ident, "M", 1), leaf(Rule::KeywordLet, "let", 3)]);
    assert_eq!(DigifyParser::parse_expr(&odd).unwrap_err(), SyntaxError::Unexpected(Rule::KeywordLet));
    let nested = node(Rule::Expr, "(x)", 1, vec![node(Rule::Expr, "x", 2, vec![leaf(Rule::Other, "x", 2)])]);
    assert_eq!(DigifyParser::parse_expr(&nested).unwrap_err(), SyntaxError::Unexpected(Rule::Other));
    let huge = node(Rule::Expr, "M^99999999999", 1, vec![leaf(Rule::Ident, "M", 1), leaf(Rule::Number, "99999999999", 3)]);
    assert_eq!(DigifyParser::parse_expr(&huge).unwrap_err(), SyntaxError::Number);
}

#[test]
fn statements_are_read_by_their_keyword() {
    let text = node(Rule::String, "\"kg\"", 10, vec![leaf(Rule::Other, "kg", 11)]);
    let define = node(
        Rule::Stmt,
        "define M \"kg\"",
        1,
        vec![leaf(Rule::KeywordDefine, "define", 1), leaf(Rule::Ident, "M", 8), text],
    );
    let stmt = DigifyParser::parse_stmt(&define).unwrap();
    assert_eq!(stmt.span.input(), "define M \"kg\"");
    assert!(matches!(stmt.item(), Stmt::Definition(name, symbol) if name.as_str() == "M" && symbol.as_str() == "kg" && symbol.span.start().col() == 11));

    let bind = node(
        Rule::Stmt,
        "let F = M * L / T^2",
        1,
        vec![leaf(Rule::KeywordLet, "let", 1), leaf(Rule::Ident, "F", 5), force()],
    );
    assert!(matches!(DigifyParser::parse_stmt(&bind).unwrap().item(), Stmt::Let(name, expr) if name.as_str() == "F" && shape(expr) == "(((M * L) / T) ^ 2)"));

    let check = node(
        Rule::Stmt,
        "assert F == F",
        1,
        vec![leaf(Rule::KeywordAssert, "assert", 1), force(), node(Rule::Expr, "F", 13, vec![leaf(Rule::Ident, "F", 13)])],
    );
    assert!(matches!(DigifyParser::parse_stmt(&check).unwrap().item(), Stmt::Assert(l, r) if shape(l) == "(((M * L) / T) ^ 2)" && shape(r) == "F"));

    let show = node(
        Rule::Stmt,
        "print F",
        1,
        vec![
            leaf(Rule::KeywordPrint, "print", 1),
            node(Rule::Element, "F", 7, vec![node(Rule::Expr, "F", 7, vec![leaf(Rule::Ident, "F", 7)])]),
        ],
    );
    assert!(matches!(DigifyParser::parse_stmt(&show).unwrap().item(), Stmt::Print(Element::Expr(e)) if shape(e) == "F"));
}

#[test]
fn broken_statements_are_refused() {
    assert_eq!(DigifyParser::parse_stmt(&force()).unwrap_err(), SyntaxError::NotStmt(Rule::Expr));
    assert_eq!(DigifyParser::parse_stmt(&node(Rule::Stmt, "", 1, vec![])).unwrap_err(), SyntaxError::Missing);
    let odd = node(Rule::Stmt, "M", 1, vec![leaf(Rule::Ident, "M", 1)]);
    assert_eq!(DigifyParser::parse_stmt(&odd).unwrap_err(), SyntaxError::UnknownStatement(Rule::Ident));
    let short = node(Rule::Stmt, "let x", 1, vec![leaf(Rule::KeywordLet, "let", 1), leaf(Rule::Ident, "x", 5)]);
    assert_eq!(DigifyParser::parse_stmt(&short).unwrap_err(), SyntaxError::Missing);
    let bare = node(
        Rule::Stmt,
        "define M kg",
        1,
        vec![leaf(Rule::KeywordDefine, "define", 1), leaf(Rule::Ident, "M", 8), leaf(Rule::String, "kg", 10)],
    );
    assert_eq!(DigifyParser::parse_stmt(&bare).unwrap_err(), SyntaxError::Missing);
    let wrong = node(
        Rule::Stmt,
        "let x = y",
        1,
        vec![leaf(Rule::KeywordLet, "let", 1), leaf(Rule::Ident, "x", 5), leaf(Rule::Ident, "y", 9)],
    );
    assert_eq!(DigifyParser::parse_stmt(&wrong).unwrap_err(), SyntaxError::NotExpr(Rule::Ident));
}

#[test]
fn elements_are_texts_or_expressions() {
    let text = node(
        Rule::Element,
        "\"hello\"",
        7,
        vec![node(Rule::String, "\"hello\"", 7, vec![leaf(Rule::Other, "hello", 8)])],
    );
    assert!(matches!(DigifyParser::parse_element(&text).unwrap(), Element::String(t) if t.as_str() == "hello"));
    assert_eq!(DigifyParser::parse_element(&force()).unwrap_err(), SyntaxError::NotElement(Rule::Expr));
    assert_eq!(DigifyParser::parse_element(&node(Rule::Element, "", 1, vec![])).unwrap_err(), SyntaxError::Missing);
    let odd = node(Rule::Element, "M", 1, vec![leaf(Rule::Ident, "M", 1)]);
    assert_eq!(DigifyParser::parse_element(&odd).unwrap_err(), SyntaxError::Unexpected(Rule::Ident));
    let hollow = node(Rule::Element, "\"\"", 1, vec![leaf(Rule::String, "\"\"", 1)]);
    assert_eq!(DigifyParser::parse_element(&hollow).unwrap_err(), SyntaxError::Missing);
}

#[test]
fn a_program_is_one_block() {
    let define = |name: &str, symbol: &str| {
        node(
            Rule::Stmt,
            "define",
            1,
            vec![
                leaf(Rule::KeywordDefine, "define", 1),
                leaf(Rule::Ident, name, 8),
                node(Rule::String, symbol, 10, vec![leaf(Rule::Other, symbol, 11)]),
            ],
        )
    };
    let program = node(Rule::Program, "all of it", 1, vec![define("M", "kg"), define("L", "m")]);
    let ast = DigifyParser::parse_to_ast(&program).unwrap();
    assert_eq!(ast.span.input(), "all of it");
    match ast.item() {
        Stmt::Block(stmts) => {
            assert_eq!(stmts.len(), 2);
            assert!(matches!(stmts[1].item(), Stmt::Definition(name, _) if name.as_str() == "L"));
        }
        _ => panic!("no block"),
    }
    let mut interpreter = digify::interpreter::Interpreter::default();
    assert!(interpreter.eval(&ast).is_ok());
    let broken = node(Rule::Program, "", 1, vec![define("M", "kg"), leaf(Rule::Other, "", 1)]);
    assert_eq!(DigifyParser::parse_to_ast(&broken).unwrap_err(), SyntaxError::NotStmt(Rule::Other));
    let none = node(Rule::Program, "", 1, vec![]);
    assert!(matches!(DigifyParser::parse_to_ast(&none).unwrap().item(), Stmt::Block(stmts) if stmts.is_empty()));
}

#[test]
fn failures_to_read_are_described() {
    assert_eq!(SyntaxError::NotStmt(Rule::KeywordLet).to_string(), "Try parsing keyword_let as a Stmt");
    assert_eq!(SyntaxError::NotExpr(Rule::Ident).to_string(), "Try parsing ident as a Expr");
    assert_eq!(SyntaxError::NotElement(Rule::Program).to_string(), "Try parsing program as a Element");
    assert_eq!(SyntaxError::UnknownStatement(Rule::Number).to_string(), "unkown rule in stmt match: number");
    assert_eq!(SyntaxError::Unexpected(Rule::Percent).to_string(), "Unexpected percent");
    assert_eq!(SyntaxError::Missing.to_string(), "A node of the parse tree is incomplete");
    assert_eq!(SyntaxError::Number.to_string(), "A power is no whole number");
    assert_eq!(Rule::KeywordDefine.name(), "keyword_define");
    assert_eq!(Rule::Other.name(), "other");
}

#[test]
fn whole_numbers_are_read_as_the_standard_library_reads_them() {
    for text in [
        "0", "7", "-7", "+7", "007", "-0", "2147483647", "-2147483648", "2147483648",
        "-2147483649", "99999999999999999999999", "", "-", "+", "--1", "1-", " 1", "1 ", "1_0",
        "١", "1.0", "0x10", "+-1",
    ] {
        assert_eq!(parse_int(text), text.parse::<i32>().ok(), "{:?}", text);
    }
}

#[test]
fn white_space_is_taken_off_both_ends() {
    for text in [
        "", " ", "a", "  a b  ", "\t\n a\r\n", "\u{a0}x\u{3000}", "\u{2003}\u{85}mid dle\u{1680}",
        "\u{200b}zero width stays\u{200b}", "   ", "\u{2028}\u{2029}\u{202f}\u{205f}q",
    ] {
        assert_eq!(trim(text), text.trim(), "{:?}", text);
    }
    for c in ['\u{8}', '\t', '\r', '\u{e}', ' ', '\u{1f}', '\u{85}', '\u{a0}', '\u{1680}', '\u{180e}', '\u{2000}', '\u{200a}', '\u{200b}', '\u{2028}', '\u{202f}', '\u{205f}', '\u{3000}', 'a'] {
        assert_eq!(is_whitespace(c), c.is_whitespace(), "{:?}", c);
    }
}

#[test]
fn quotes_are_taken_off_both_ends() {
    for text in ["\"kg\"", "kg", "\"\"kg\"", "\"", "", "k\"g", "\"\"\"", "\"é\"\""] {
        let mut given = text;
        assert_eq!(given.remove_quotes(), text.trim_matches('"'), "{:?}", text);
        assert_eq!(given, text);
    }
}

#[test]
fn an_item_hands_out_what_it_holds() {
    let item = Item::new(5u32, at("five", 3));
    assert_eq!(*item.item(), 5);
    assert_eq!(item.span.input(), "five");
    assert_eq!(item.span.start().line(), 1);
    assert_eq!(item.span.start().col(), 3);
    assert_eq!(item.span._end().col(), 7);
    let blank = IExpr::default();
    assert!(matches!(blank.item(), Expr::Empty));
    assert_eq!(blank.span.input(), "");
    assert_eq!((blank.span.start().line(), blank.span.start().col()), (0, 0));
    let text = Item::new_str(&leaf(Rule::Ident, "M", 4));
    assert_eq!(text.as_str(), "M");
    assert_eq!(text.span.start().col(), 4);
}
