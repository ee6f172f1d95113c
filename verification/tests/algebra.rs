use digify::exponent::{combine_into, merge, ExponentMap};
use digify::interpreter::variable::{Axiom, Unit};

fn map(entries: &[(&str, u32)]) -> ExponentMap {
    let mut m = ExponentMap::new();
    for (name, power) in entries {
        m.put(name, *power);
    }
    m
}

fn entries(m: &ExponentMap) -> Vec<(String, u32)> {
    (0..m.len()).map(|i| (m.name_at(i).clone(), m.power_at(i))).collect()
}

fn unit(top: &[(&str, u32)], bottom: &[(&str, u32)]) -> Unit {
    Unit::new(map(top), map(bottom))
}

fn sides(u: &Unit) -> (Vec<(String, u32)>, Vec<(String, u32)>) {
    (entries(u.top()), entries(u.bottom()))
}

fn named(list: &[(&str, u32)]) -> Vec<(String, u32)> {
    list.iter().map(|(n, p)| (n.to_string(), *p)).collect()
}

fn shares_no_name(u: &Unit) -> bool {
    (0..u.top().len()).all(|i| !u.bottom().contains_key(u.top().name_at(i)))
}

#[test]
fn a_map_keeps_its_entries_in_order_of_the_names() {
    let m = map(&[("T", 2), ("M", 1), ("L", 3), ("Mass", 4), ("", 5)]);
    assert_eq!(
        entries(&m),
        named(&[("", 5), ("L", 3), ("M", 1), ("Mass", 4), ("T", 2)])
    );
    assert_eq!(m.len(), 5);
    assert!(!m.is_empty());
}

#[test]
fn names_are_ordered_by_their_bytes() {
    let m = map(&[("é", 1), ("z", 1), ("Z", 1), ("a", 1), ("ab", 1), ("€", 1)]);
    let names: Vec<String> = entries(&m).into_iter().map(|e| e.0).collect();
    assert_eq!(names, vec!["Z", "a", "ab", "z", "é", "€"]);
    assert!(digify::ident::name_less("a", "ab"));
    assert!(!digify::ident::name_less("ab", "a"));
    assert!(!digify::ident::name_less("a", "a"));
    assert!(digify::ident::name_equal("é", "é"));
    assert!(!digify::ident::name_equal("e", "é"));
}

#[test]
fn put_sets_replaces_and_removes() {
    let mut m = map(&[("M", 1), ("L", 2)]);
    assert_eq!(m.get("M"), 1);
    assert_eq!(m.get("T"), 0);
    assert!(m.contains_key("L"));
    assert!(!m.contains_key("T"));
    m.put("M", 7);
    assert_eq!(m.get("M"), 7);
    m.put("L", 0);
    assert!(!m.contains_key("L"));
    m.put("T", 0);
    assert_eq!(entries(&m), named(&[("M", 7)]));
    assert!(ExponentMap::new().is_empty());
}

#[test]
fn maps_with_the_same_entries_are_the_same() {
    let a = map(&[("M", 1), ("L", 2)]);
    let b = map(&[("L", 2), ("M", 1)]);
    let c = map(&[("L", 2), ("M", 2)]);
    let d = map(&[("L", 2)]);
    assert!(a.same(&b));
    assert!(!a.same(&c));
    assert!(!a.same(&d));
    assert!(a.duplicate().same(&a));
}

#[test]
fn scaling_multiplies_every_power() {
    let m = map(&[("M", 1), ("L", 2)]);
    assert_eq!(entries(&m.scaled(3).unwrap()), named(&[("L", 6), ("M", 3)]));
    assert!(m.scaled(0).unwrap().is_empty());
    assert!(m.scaled(u32::MAX).is_none());
    assert_eq!(
        entries(&map(&[("M", 1)]).scaled(u32::MAX).unwrap()),
        named(&[("M", u32::MAX)])
    );
}

#[test]
fn combining_cancels_against_the_opposite_side() {
    let (t, o) = combine_into(map(&[]), map(&[("M", 3)]), "M", 2).unwrap();
    assert_eq!((entries(&t), entries(&o)), (named(&[]), named(&[("M", 1)])));
    let (t, o) = combine_into(map(&[]), map(&[("M", 3)]), "M", 3).unwrap();
    assert_eq!((entries(&t), entries(&o)), (named(&[]), named(&[])));
    let (t, o) = combine_into(map(&[]), map(&[("M", 3)]), "M", 5).unwrap();
    assert_eq!((entries(&t), entries(&o)), (named(&[("M", 2)]), named(&[])));
    let (t, o) = combine_into(map(&[("M", 1)]), map(&[("L", 3)]), "M", 5).unwrap();
    assert_eq!((entries(&t), entries(&o)), (named(&[("M", 6)]), named(&[("L", 3)])));
    assert!(combine_into(map(&[("M", u32::MAX)]), map(&[]), "M", 1).is_none());
    assert!(combine_into(map(&[]), map(&[("M", u32::MAX)]), "M", 1).is_some());
}

#[test]
fn merging_multiplies_two_fractions() {
    let (t, b) = merge(
        map(&[("M", 1), ("L", 1)]),
        map(&[("T", 2)]),
        &map(&[("T", 1), ("L", 1)]),
        &map(&[("M", 2)]),
    )
    .unwrap();
    assert_eq!(
        (entries(&t), entries(&b)),
        (named(&[("L", 2)]), named(&[("M", 1), ("T", 1)]))
    );
    assert!(merge(map(&[("M", u32::MAX)]), map(&[]), &map(&[("M", 1)]), &map(&[])).is_none());
}

#[test]
fn a_new_unit_has_what_stands_on_both_sides_cancelled() {
    let u = unit(&[("M", 3), ("L", 1), ("T", 2)], &[("M", 1), ("T", 2), ("K", 4)]);
    assert_eq!(sides(&u), (named(&[("L", 1), ("M", 2)]), named(&[("K", 4)])));
    assert!(u.simplified().is_none());
    assert!(shares_no_name(&u));
}

#[test]
fn multiplying_adds_exponents_and_dividing_takes_them_away() {
    let force = unit(&[("M", 1), ("L", 1)], &[("T", 2)]);
    let length = unit(&[("L", 1)], &[]);
    let energy = force.duplicate().multiply(length.duplicate());
    assert_eq!(sides(&energy), (named(&[("L", 2), ("M", 1)]), named(&[("T", 2)])));
    let back = energy.divide(length);
    assert!(back.same(&force));
    let upside_down = unit(&[], &[]).divide(force.duplicate());
    assert_eq!(sides(&upside_down), (named(&[("T", 2)]), named(&[("L", 1), ("M", 1)])));
    assert_eq!(sides(&force.reciprocal()), sides(&upside_down));
}

#[test]
fn units_are_multiplied_and_divided_with_the_operators() {
    let force = unit(&[("M", 1), ("L", 1)], &[("T", 2)]);
    let length = unit(&[("L", 1)], &[]);
    let energy = force.duplicate() * length.duplicate();
    assert_eq!(sides(&energy), (named(&[("L", 2), ("M", 1)]), named(&[("T", 2)])));
    assert!((energy / length).same(&force));
}

#[test]
fn no_name_is_ever_on_both_sides() {
    let steps = [
        unit(&[("M", 2)], &[("L", 1)]),
        unit(&[("L", 3)], &[("M", 1), ("T", 1)]),
        unit(&[("T", 1), ("K", 1)], &[("L", 2)]),
        unit(&[("M", 5)], &[("K", 1)]),
    ];
    let mut acc = Unit::default();
    for (i, step) in steps.iter().enumerate() {
        acc = if i % 2 == 0 {
            acc.multiply(step.duplicate())
        } else {
            acc.divide(step.duplicate())
        };
        assert!(shares_no_name(&acc));
    }
    assert_eq!(sides(&acc), (named(&[("K", 2), ("T", 2)]), named(&[("L", 6), ("M", 2)])));
}

#[test]
fn the_dimensionless_unit_is_the_identity() {
    let u = unit(&[("M", 1), ("L", 2)], &[("T", 2)]);
    assert!(u.duplicate().multiply(Unit::default()).same(&u));
    assert!(Unit::default().multiply(u.duplicate()).same(&u));
    assert!(u.duplicate().divide(Unit::default()).same(&u));
    assert!(Unit::default().top().is_empty());
    assert!(Unit::default().bottom().is_empty());
}

#[test]
fn a_unit_over_itself_is_dimensionless() {
    let u = unit(&[("M", 1), ("L", 2)], &[("T", 2)]);
    let one = u.duplicate().divide(u);
    assert!(one.top().is_empty());
    assert!(one.bottom().is_empty());
    assert!(one.same(&Unit::default()));
}

#[test]
fn a_product_stores_no_expansion() {
    let mut scopes = digify::interpreter::scope::TowerScope::default();
    scopes.enter_scope();
    let mut u = Unit::default();
    u.simplify(&mut scopes).unwrap();
    assert!(u.simplified().is_some());
    assert!(u.multiply(Unit::default()).simplified().is_none());
}

#[test]
fn raising_to_a_power_multiplies_the_exponents() {
    let u = unit(&[("M", 1), ("L", 2)], &[("T", 3)]);
    let cube = u.power(3).unwrap();
    assert_eq!(sides(&cube), (named(&[("L", 6), ("M", 3)]), named(&[("T", 9)])));
    assert!(u.power(0).unwrap().same(&Unit::default()));
    assert!(u.power(u32::MAX).is_none());
}

#[test]
fn exponents_that_do_not_fit_are_refused() {
    let big = unit(&[("M", u32::MAX)], &[]);
    let one = unit(&[("M", 1)], &[]);
    assert!(big.duplicate().checked_multiply(one.duplicate()).is_none());
    assert!(big.duplicate().checked_divide(one.duplicate()).is_some());
    let small = unit(&[], &[("M", u32::MAX)]);
    assert!(small.duplicate().checked_divide(one.duplicate()).is_none());
    assert!(small.checked_multiply(one).is_some());
    assert!(big.duplicate().checked_divide(big).unwrap().same(&Unit::default()));
}

#[test]
fn an_axiom_stands_for_its_own_name() {
    let kilo = Axiom::new("M", "kg");
    assert_eq!(kilo.ident(), "M");
    assert_eq!(kilo.symbole(), "kg");
    assert_eq!(sides(kilo.as_unit()), (named(&[("M", 1)]), named(&[])));
    assert!(kilo.as_unit().simplified().is_none());
    assert!(kilo.same(&Axiom::new("M", "g")));
    assert!(!kilo.same(&Axiom::new("L", "kg")));
}
