use digify::error::ErrorKind;
use digify::exponent::ExponentMap;
use digify::interpreter::scope::{Scope, TowerScope};
use digify::interpreter::variable::{Unit, Variable};
use digify::parser::{Expr, IExpr, Istr, Item, Position, Span};

fn name(text: &str) -> Istr {
    Item::new(text.to_string(), Span::new(text, Position::new(7, 3), Position::new(7, 4)))
}

fn map(entries: &[(&str, u32)]) -> ExponentMap {
    let mut m = ExponentMap::new();
    for (name, power) in entries {
        m.put(name, *power);
    }
    m
}

fn unit(top: &[(&str, u32)], bottom: &[(&str, u32)]) -> Unit {
    Unit::new(map(top), map(bottom))
}

fn entries(m: &ExponentMap) -> Vec<(String, u32)> {
    (0..m.len()).map(|i| (m.name_at(i).clone(), m.power_at(i))).collect()
}

fn sides(u: &Unit) -> (Vec<(String, u32)>, Vec<(String, u32)>) {
    (entries(u.top()), entries(u.bottom()))
}

fn named(list: &[(&str, u32)]) -> Vec<(String, u32)> {
    list.iter().map(|(n, p)| (n.to_string(), *p)).collect()
}

fn si() -> TowerScope {
    let mut scopes = TowerScope::default();
    scopes.enter_scope();
    scopes.define(name("M"), "kg").unwrap();
    scopes.define(name("L"), "m").unwrap();
    scopes.define(name("T"), "s").unwrap();
    scopes
}

fn ident(text: &str) -> IExpr {
    Item::new(Expr::Ident(name(text)), Span::default())
}

fn node(expr: Expr) -> Box<IExpr> {
    Box::new(Item::new(expr, Span::default()))
}

#[test]
fn a_name_is_found_in_the_scopes_around() {
    let mut scopes = si();
    assert!(scopes.contains("M"));
    assert!(!scopes.contains("K"));
    scopes.enter_scope();
    assert_eq!(scopes.depth(), 2);
    assert!(scopes.contains("M"));
    assert!(!scopes.declared_here("M"));
    assert!(scopes.get_existing("M").is_some());
    assert!(scopes.get_existing("K").is_none());
    assert!(matches!(scopes.get(&name("L")).unwrap().item(), Variable::Axiom(a) if a.symbole() == "m"));
    let missing = scopes.get(&name("K")).unwrap_err();
    assert!(matches!(missing.kind(), ErrorKind::VariableNotDeclared(n) if n == "K"));
    assert_eq!(missing.span().start().line(), 7);
    assert_eq!(missing.span().input(), "K");
}

#[test]
fn a_name_cannot_be_bound_twice_in_one_scope() {
    let mut scopes = si();
    let twice = scopes.define(name("M"), "g").unwrap_err();
    assert!(matches!(twice.kind(), ErrorKind::VariableAlreadyDeclared(n) if n == "M"));
    assert_eq!(twice.span().start().col(), 3);
    scopes.insert(name("v"), unit(&[("M", 1)], &[])).unwrap();
    let again = scopes.insert(name("v"), unit(&[("L", 1)], &[])).unwrap_err();
    assert!(matches!(again.kind(), ErrorKind::VariableAlreadyDeclared(n) if n == "v"));
    let over = scopes.insert(name("M"), Unit::default()).unwrap_err();
    assert!(matches!(over.kind(), ErrorKind::VariableAlreadyDeclared(n) if n == "M"));
    assert!(matches!(scopes.get_existing("v").unwrap().item(), Variable::Unit(u) if sides(u).0 == named(&[("M", 1)])));
}

#[test]
fn an_inner_binding_shadows_until_its_block_is_left() {
    let mut scopes = si();
    scopes.insert(name("x"), unit(&[("M", 1)], &[])).unwrap();
    scopes.enter_scope();
    assert!(scopes.insert(name("x"), unit(&[("L", 1)], &[])).is_ok());
    let inner = scopes.get_existing("x").unwrap().item();
    assert!(matches!(inner, Variable::Unit(u) if sides(u).0 == named(&[("L", 1)])));
    assert!(scopes.define(name("M"), "gram").is_ok());
    assert_eq!(unit(&[("M", 1)], &[]).to_string(&scopes), "gram");
    scopes.exit_scope();
    let outer = scopes.get_existing("x").unwrap().item();
    assert!(matches!(outer, Variable::Unit(u) if sides(u).0 == named(&[("M", 1)])));
    assert_eq!(unit(&[("M", 1)], &[]).to_string(&scopes), "kg");
    assert_eq!(scopes.depth(), 1);
}

#[test]
fn leaving_the_last_scope_leaves_nothing_and_once_more_changes_nothing() {
    let mut scopes = si();
    scopes.exit_scope();
    assert_eq!(scopes.depth(), 0);
    assert!(!scopes.contains("M"));
    scopes.exit_scope();
    assert_eq!(scopes.depth(), 0);
}

#[test]
fn a_unit_is_bound_as_it_is() {
    let mut scopes = si();
    assert!(scopes.insert(name("v"), unit(&[("M", 1), ("K", 1)], &[("A", 1)])).is_ok());
    let bound = scopes.get_existing("v").unwrap().item();
    assert!(bound.simplify().is_none());
    assert!(matches!(bound, Variable::Unit(u) if sides(u) == (named(&[("K", 1), ("M", 1)]), named(&[("A", 1)]))));
    scopes.enter_scope();
    assert!(scopes.insert(name("v"), Unit::default()).is_ok());
    assert!(scopes.insert(name("v"), Unit::default()).is_err());
    let mut through = unit(&[("v", 1)], &[]);
    assert!(through.simplify(&mut scopes).unwrap().same(&Unit::default()));
    scopes.exit_scope();
    let mut through = unit(&[("v", 1)], &[]);
    assert!(matches!(through.simplify(&mut scopes), Err(ErrorKind::VariableNotDeclared(n)) if n == "K"));
}

#[test]
fn a_bound_unit_takes_its_expansion_when_it_is_asked_for() {
    let mut scopes = si();
    scopes.insert(name("Force"), unit(&[("M", 1), ("L", 1)], &[("T", 2)])).unwrap();
    scopes.insert(name("Energy"), unit(&[("Force", 1), ("L", 1)], &[])).unwrap();
    scopes.insert(name("Odd"), unit(&[("Energy", 2)], &[("Force", 3), ("M", 1)])).unwrap();
    assert!(scopes.get_existing("Odd").unwrap().item().simplify().is_none());
    assert!(scopes.get_existing("Force").unwrap().item().simplify().is_none());
    let fuel = scopes.fuel();
    assert_eq!(fuel, 6);
    scopes.force("Odd", fuel).unwrap();
    let energy = scopes.get_existing("Energy").unwrap().item();
    assert_eq!(
        sides(energy.simplify().unwrap()),
        (named(&[("L", 2), ("M", 1)]), named(&[("T", 2)]))
    );
    let odd = scopes.get_existing("Odd").unwrap().item();
    assert_eq!(
        sides(odd.simplify().unwrap()),
        (named(&[("L", 1), ("T", 2)]), named(&[("M", 2)]))
    );
    assert!(matches!(odd, Variable::Unit(u) if sides(u) == (named(&[("Energy", 2)]), named(&[("Force", 3), ("M", 1)]))));
    assert!(scopes.get_existing("Force").unwrap().item().simplify().is_some());
    assert_eq!(sides(scopes.get_existing("M").unwrap().item().simplify().unwrap()).0, named(&[("M", 1)]));
    assert!(matches!(scopes.force("nobody", fuel), Err(ErrorKind::VariableNotDeclared(n)) if n == "nobody"));
    assert!(scopes.force("M", 0).is_ok());
}

#[test]
fn a_chain_of_bound_units_is_followed_as_far_as_there_are_bindings() {
    let mut scopes = si();
    scopes.insert(name("a"), unit(&[("M", 1)], &[])).unwrap();
    scopes.insert(name("b"), unit(&[("a", 1)], &[])).unwrap();
    scopes.insert(name("c"), unit(&[("b", 1)], &[])).unwrap();
    assert!(matches!(scopes.force("c", 2), Err(ErrorKind::CyclicDefinition)));
    assert!(scopes.get_existing("c").unwrap().item().simplify().is_none());
    assert_eq!(unit(&[("c", 1)], &[]).to_string(&scopes), "kg");
    let mut top = unit(&[("c", 2)], &[]);
    assert_eq!(sides(&top.simplify(&mut scopes).unwrap()).0, named(&[("M", 2)]));
    scopes.enter_scope();
    scopes.insert(name("M"), unit(&[("c", 1)], &[])).unwrap();
    assert!(matches!(unit(&[("a", 1)], &[]).try_to_string(&scopes), Err(ErrorKind::CyclicDefinition)));
    let mut inner = unit(&[("M", 1)], &[]);
    assert_eq!(sides(&inner.simplify(&mut scopes).unwrap()).0, named(&[("M", 1)]));
    scopes.insert(name("p"), unit(&[("q", 1)], &[])).unwrap();
    scopes.insert(name("q"), unit(&[("p", 1)], &[])).unwrap();
    let mut round = unit(&[("p", 1)], &[]);
    assert!(matches!(round.simplify(&mut scopes), Err(ErrorKind::CyclicDefinition)));
    assert!(matches!(unit(&[("nobody", 1)], &[]).try_to_string(&scopes), Err(ErrorKind::VariableNotDeclared(n)) if n == "nobody"));
}

#[test]
fn expanding_names_what_is_missing_or_does_not_fit() {
    let mut scopes = si();
    let mut unknown = unit(&[("M", 1)], &[("K", 1)]);
    assert!(matches!(unknown.simplify(&mut scopes), Err(ErrorKind::VariableNotDeclared(n)) if n == "K"));
    assert!(unknown.simplified().is_none());
    assert!(matches!(unknown.first_undeclared(&scopes), Some(n) if n == "K"));

    scopes.insert(name("a"), unit(&[("M", 65536)], &[])).unwrap();
    let mut big = unit(&[("a", 65536)], &[]);
    assert!(matches!(big.simplify(&mut scopes), Err(ErrorKind::ExponentOverflow)));
    let mut fits = unit(&[("a", 65535)], &[]);
    assert_eq!(sides(&fits.simplify(&mut scopes).unwrap()).0, named(&[("M", 65536 * 65535)]));
    scopes.insert(name("b"), unit(&[("a", 65536)], &[])).unwrap();
    assert_eq!(unit(&[("b", 1)], &[]).to_string(&scopes), "a^65536");
    let mut through = unit(&[("M", 1)], &[("b", 1)]);
    assert!(matches!(through.simplify(&mut scopes), Err(ErrorKind::ExponentOverflow)));
    assert!(scopes.get_existing("b").unwrap().item().simplify().is_none());
    let eager = Expr::Simplify(Box::new(ident("b")));
    assert!(matches!(Unit::from(&eager, &mut scopes), Err(ErrorKind::ExponentOverflow)));
    assert!(Unit::from(&Expr::Ident(name("b")), &mut scopes).is_ok());
}

#[test]
fn expanding_twice_changes_nothing() {
    let mut scopes = si();
    scopes.insert(name("Force"), unit(&[("M", 1), ("L", 1)], &[("T", 2)])).unwrap();
    let mut u = unit(&[("Force", 2)], &[("L", 1)]);
    let once = u.simplify(&mut scopes).unwrap();
    assert_eq!(sides(&once), (named(&[("L", 1), ("M", 2)]), named(&[("T", 4)])));
    let mut copy = once.duplicate();
    let twice = copy.simplify(&mut scopes).unwrap();
    assert!(twice.same(&once));
    let mut one = u.duplicate().divide(u.duplicate());
    assert!(one.simplify(&mut scopes).unwrap().same(&Unit::default()));
}

#[test]
fn the_expansion_is_stored_once_and_kept() {
    let mut scopes = si();
    let mut u = unit(&[("M", 1)], &[]);
    assert!(u.simplified().is_none());
    let first = u.simplify(&mut scopes).unwrap();
    assert!(u.simplified().unwrap().same(&first));
    scopes.enter_scope();
    scopes.insert(name("M"), unit(&[("L", 1)], &[])).unwrap();
    let second = u.simplify(&mut scopes).unwrap();
    assert!(second.same(&first));
    let mut fresh = unit(&[("M", 1)], &[]);
    assert_eq!(sides(&fresh.simplify(&mut scopes).unwrap()).0, named(&[("L", 1)]));
}

#[test]
fn equality_is_reflexive_and_symmetric() {
    let mut scopes = si();
    scopes.insert(name("Force"), unit(&[("M", 1), ("L", 1)], &[("T", 2)])).unwrap();
    let make = || {
        (
            unit(&[("Force", 1), ("L", 1)], &[]),
            unit(&[("M", 1), ("L", 2)], &[("T", 2)]),
            unit(&[("M", 1), ("L", 2)], &[("T", 1)]),
        )
    };
    let (mut a, mut b, mut c) = make();
    let (mut a2, mut b2, mut c2) = make();
    assert_eq!(a.eq(&mut a2, &mut scopes).unwrap(), true);
    assert_eq!(a.eq(&mut b, &mut scopes).unwrap(), true);
    assert_eq!(b2.eq(&mut a2, &mut scopes).unwrap(), true);
    assert_eq!(a.eq(&mut c, &mut scopes).unwrap(), false);
    assert_eq!(c2.eq(&mut a, &mut scopes).unwrap(), false);
    let mut unknown = unit(&[("K", 1)], &[]);
    assert!(matches!(a.eq(&mut unknown, &mut scopes), Err(ErrorKind::VariableNotDeclared(n)) if n == "K"));
    assert!(matches!(unknown.eq(&mut a, &mut scopes), Err(ErrorKind::VariableNotDeclared(n)) if n == "K"));
}

#[test]
fn rendering_follows_the_three_cases() {
    let mut scopes = si();
    scopes.insert(name("Force"), unit(&[("M", 1), ("L", 1)], &[("T", 2)])).unwrap();
    scopes.insert(name("F"), unit(&[("Force", 1)], &[])).unwrap();
    assert_eq!(Unit::default().to_string(&scopes), "1");
    assert_eq!(unit(&[("M", 1)], &[]).to_string(&scopes), "kg");
    assert_eq!(unit(&[("Force", 1)], &[]).to_string(&scopes), "L M T^-2");
    assert_eq!(unit(&[("F", 1)], &[]).to_string(&scopes), "L M T^-2");
    assert_eq!(unit(&[("M", 1), ("L", 2)], &[("T", 2)]).to_string(&scopes), "L^2 M T^-2");
    assert_eq!(unit(&[("M", 2)], &[]).to_string(&scopes), "M^2");
    assert_eq!(unit(&[], &[("M", 1)]).to_string(&scopes), "M-1");
    assert_eq!(unit(&[], &[("M", 1), ("L", 3)]).to_string(&scopes), "L^-3 M-1");
    assert_eq!(unit(&[("M", 1)], &[("T", 1)]).to_string(&scopes), "M T-1");
    assert_eq!(
        unit(&[("b", 12), ("a", 1), ("K", 4294967295)], &[("z", 10), ("y", 1)]).to_string(&scopes),
        "K^4294967295 a b^12 y-1 z^-10"
    );
}

#[test]
fn an_expression_is_walked_with_a_target_side_and_a_running_power() {
    let mut scopes = si();
    let mass_times_length = Expr::Mul(Box::new(ident("M")), Box::new(ident("L")));
    let time_squared = Expr::Power(Box::new(ident("T")), 2);
    let force = Expr::Div(node(mass_times_length), node(time_squared));
    assert_eq!(
        sides(&Unit::from(&force, &mut scopes).unwrap()),
        (named(&[("L", 1), ("M", 1)]), named(&[("T", 2)]))
    );
    let nested = Expr::Power(node(Expr::Div(Box::new(ident("M")), node(Expr::Power(Box::new(ident("L")), -3)))), -2);
    assert_eq!(
        sides(&Unit::from(&nested, &mut scopes).unwrap()),
        (named(&[]), named(&[("L", 6), ("M", 2)]))
    );
    let cancelled = Expr::Mul(Box::new(ident("M")), node(Expr::Power(Box::new(ident("M")), -1)));
    assert!(Unit::from(&cancelled, &mut scopes).unwrap().same(&Unit::default()));
    let nothing = Expr::Power(Box::new(ident("M")), 0);
    assert!(Unit::from(&nothing, &mut scopes).unwrap().same(&Unit::default()));
    assert!(Unit::from(&Expr::Empty, &mut scopes).unwrap().same(&Unit::default()));
    let unknown = Unit::from(&Expr::Ident(name("nobody")), &mut scopes).unwrap();
    assert_eq!(sides(&unknown).0, named(&[("nobody", 1)]));
    let least = Expr::Power(Box::new(ident("M")), i32::MIN);
    assert_eq!(sides(&Unit::from(&least, &mut scopes).unwrap()).1, named(&[("M", 2147483648)]));
}

#[test]
fn a_name_is_expanded_at_once_where_the_expression_asks_for_it() {
    let mut scopes = si();
    scopes.insert(name("Force"), unit(&[("M", 1), ("L", 1)], &[("T", 2)])).unwrap();
    let lazy = Expr::Power(Box::new(ident("Force")), 2);
    assert_eq!(sides(&Unit::from(&lazy, &mut scopes).unwrap()).0, named(&[("Force", 2)]));
    let eager = Expr::Simplify(node(Expr::Power(Box::new(ident("Force")), 2)));
    assert_eq!(
        sides(&Unit::from(&eager, &mut scopes).unwrap()),
        (named(&[("L", 2), ("M", 2)]), named(&[("T", 4)]))
    );
    assert_eq!(
        sides(&Unit::from_expression(&lazy, &mut scopes, true).unwrap()),
        (named(&[("L", 2), ("M", 2)]), named(&[("T", 4)]))
    );
    let under = Expr::Div(Box::new(ident("L")), node(Expr::Simplify(Box::new(ident("Force")))));
    assert_eq!(
        sides(&Unit::from(&under, &mut scopes).unwrap()),
        (named(&[("T", 2)]), named(&[("M", 1)]))
    );
    let missing = Expr::Mul(Box::new(ident("nobody")), node(Expr::Simplify(Box::new(ident("absent")))));
    assert!(matches!(Unit::from(&missing, &mut scopes), Err(ErrorKind::VariableNotDeclared(n)) if n == "absent"));
    let skipped = Expr::Power(node(Expr::Simplify(Box::new(ident("absent")))), 0);
    assert!(Unit::from(&skipped, &mut scopes).is_ok());
}

#[test]
fn powers_that_do_not_fit_end_the_walk() {
    let mut scopes = si();
    let twice = Expr::Mul(
        node(Expr::Power(Box::new(ident("M")), i32::MAX)),
        node(Expr::Mul(
            node(Expr::Power(Box::new(ident("M")), i32::MAX)),
            node(Expr::Power(Box::new(ident("M")), 2)),
        )),
    );
    assert!(matches!(Unit::from(&twice, &mut scopes), Err(ErrorKind::ExponentOverflow)));
    let fits = Expr::Mul(
        node(Expr::Power(Box::new(ident("M")), i32::MAX)),
        node(Expr::Mul(
            node(Expr::Power(Box::new(ident("M")), i32::MAX)),
            Box::new(ident("M")),
        )),
    );
    assert_eq!(sides(&Unit::from(&fits, &mut scopes).unwrap()).0, named(&[("M", u32::MAX)]));
    let empty = Expr::Power(node(Expr::Power(node(Expr::Empty), 65536)), 65536);
    assert!(Unit::from(&empty, &mut scopes).unwrap().same(&Unit::default()));
    let late = Expr::Mul(
        node(Expr::Power(Box::new(ident("M")), i32::MAX)),
        node(Expr::Div(
            node(Expr::Power(Box::new(ident("M")), i32::MAX)),
            node(Expr::Power(Box::new(ident("M")), i32::MAX)),
        )),
    );
    assert_eq!(sides(&Unit::from(&late, &mut scopes).unwrap()).0, named(&[("M", i32::MAX as u32)]));
}

#[test]
fn a_scope_alone_binds_and_finds() {
    let mut scope = Scope::default();
    assert!(!scope.contains("M"));
    scope.define(name("M"), "kg").unwrap();
    assert!(scope.contains("M"));
    assert!(scope.get(&name("M")).is_ok());
    assert!(scope.get(&name("L")).is_err());
    assert!(scope.get_existing("L").is_none());
    assert!(scope.define(name("M"), "g").is_err());
}
