use digify::dimension::power::{Concat, Flatten, Power};
use digify::dimension::{Dimension, Operator, RawDimension, Sign};
use std::rc::Rc;

#[test]
fn make_spreaded_already_spread() {
    let v = vec![7, 6, 7, 8];
    let mut con = Concat::Spreaded(v);

    con.make_spreaded();

    println!("{:?}", con);

    assert!(matches!(con, Concat::Spreaded(_)));
    assert_eq!(con.unwrap(), vec![7, 6, 7, 8])
}

#[test]
fn make_spreaded_already_concat() {
    let v = vec![7, 6, 8];
    let mut con = Concat::Concated(v);

    con.make_spreaded();

    println!("{:?}", con);

    assert!(matches!(con, Concat::Spreaded(_)));
    assert_eq!(con.unwrap(), vec![7, 6, 8])
}

#[test]
fn the_value_can_be_changed_in_place() {
    let mut con = Concat::Concated(vec![1, 2]);
    con.get_mut().push(3);
    assert!(matches!(con, Concat::Concated(_)));
    assert_eq!(con.get_ref(), &vec![1, 2, 3]);
    let mut con = Concat::Spreaded(5);
    *con.get_mut() += 1;
    assert!(matches!(con, Concat::Spreaded(6)));
}

#[test]
fn hash_same_flatten() {
    let flatten = Flatten {
        vec: Concat::Concated(vec![
            Power::new(Rc::new("M".to_owned()), Sign::Plus, 1),
            Power::new(Rc::new("L".to_owned()), Sign::Plus, 2),
            Power::new(Rc::new("T".to_owned()), Sign::Minus, 2),
        ]),
    };

    assert_eq!(flatten.hash(), flatten.hash())
}

#[test]
fn hash_equals_flatten() {
    let flatten1 = Flatten {
        vec: Concat::Concated(vec![
            Power::new(Rc::new("M".to_owned()), Sign::Plus, 1),
            Power::new(Rc::new("L".to_owned()), Sign::Plus, 2),
            Power::new(Rc::new("T".to_owned()), Sign::Minus, 2),
        ]),
    };

    let flatten2 = Flatten {
        vec: Concat::Concated(vec![
            Power::new(Rc::new("M".to_owned()), Sign::Plus, 1),
            Power::new(Rc::new("L".to_owned()), Sign::Plus, 2),
            Power::new(Rc::new("T".to_owned()), Sign::Minus, 2),
        ]),
    };

    assert_eq!(flatten1.hash(), flatten2.hash())
}

#[test]
fn hash_equals_flatten_after_concat() {
    let masse = Rc::new("M".to_owned());
    let longueur = Rc::new("L".to_owned());
    let temps = Rc::new("T".to_owned());

    let mut flatten1 = Flatten {
        vec: Concat::Concated(vec![
            Power::new(masse.clone(), Sign::Plus, 2),
            Power::new(temps.clone(), Sign::Minus, 2),
            Power::new(longueur.clone(), Sign::Plus, 2),
            Power::new(masse.clone(), Sign::Minus, 3),
            Power::new(masse.clone(), Sign::Plus, 2),
        ]),
    };
    flatten1.concate();

    let mut flatten2 = Flatten {
        vec: Concat::Concated(vec![
            Power::new(Rc::new("M".to_owned()), Sign::Plus, 1),
            Power::new(Rc::new("L".to_owned()), Sign::Plus, 2),
            Power::new(Rc::new("T".to_owned()), Sign::Minus, 2),
        ]),
    };
    flatten2.concate();

    assert_eq!(flatten1.hash(), flatten2.hash())
}

fn entries(flatten: &Flatten) -> Vec<(String, Sign, u32)> {
    flatten
        .vec
        .get_ref()
        .iter()
        .map(|p| ((*p.dimention).clone(), p.sign, p.power))
        .collect()
}

#[test]
fn concate_sums_each_name_in_order_of_the_names() {
    let mut flatten = Flatten {
        vec: Concat::Spreaded(vec![
            Power::new(Rc::new("M".to_owned()), Sign::Plus, 2),
            Power::new(Rc::new("T".to_owned()), Sign::Minus, 2),
            Power::new(Rc::new("L".to_owned()), Sign::Plus, 2),
            Power::new(Rc::new("M".to_owned()), Sign::Minus, 3),
            Power::new(Rc::new("K".to_owned()), Sign::Minus, 4),
            Power::new(Rc::new("K".to_owned()), Sign::Plus, 4),
        ]),
    };
    flatten.concate();
    assert!(matches!(flatten.vec, Concat::Concated(_)));
    assert_eq!(
        entries(&flatten),
        vec![
            ("K".to_owned(), Sign::Plus, 0),
            ("L".to_owned(), Sign::Plus, 2),
            ("M".to_owned(), Sign::Minus, 1),
            ("T".to_owned(), Sign::Minus, 2),
        ]
    );
}

#[test]
fn hash_tells_lists_apart() {
    let plus = Flatten::one(Power::new(Rc::new("M".to_owned()), Sign::Plus, 1));
    let minus = Flatten::one(Power::new(Rc::new("M".to_owned()), Sign::Minus, 1));
    let square = Flatten::one(Power::new(Rc::new("M".to_owned()), Sign::Plus, 2));
    let other = Flatten::one(Power::new(Rc::new("L".to_owned()), Sign::Plus, 1));
    assert_ne!(plus.hash(), minus.hash());
    assert_ne!(plus.hash(), square.hash());
    assert_ne!(plus.hash(), other.hash());
}

#[test]
fn append_keeps_the_order_and_spreads() {
    let mut list = Flatten {
        vec: Concat::Concated(vec![Power::new(Rc::new("M".to_owned()), Sign::Plus, 1)]),
    };
    list.append(Flatten::one(Power::new(Rc::new("L".to_owned()), Sign::Minus, 2)));
    assert!(matches!(list.vec, Concat::Spreaded(_)));
    assert_eq!(
        entries(&list),
        vec![("M".to_owned(), Sign::Plus, 1), ("L".to_owned(), Sign::Minus, 2)]
    );
}

#[test]
fn power_as_signed_number_and_back() {
    let p = Power::new(Rc::new("M".to_owned()), Sign::Minus, 3);
    assert_eq!(p.as_i32(), -3);
    let q = Power::new(Rc::new("M".to_owned()), Sign::Plus, 5);
    assert_eq!(q.as_i32(), 5);
    let back = Power::from((Rc::new("M".to_owned()), -7));
    assert_eq!((back.sign, back.power), (Sign::Minus, 7));
    let zero = Power::from((Rc::new("M".to_owned()), 0));
    assert_eq!((zero.sign, zero.power), (Sign::Plus, 0));
    let least = Power::from((Rc::new("M".to_owned()), i32::MIN));
    assert_eq!((least.sign, least.power), (Sign::Minus, 2147483648));
}

#[test]
fn signs_flip_and_multiply() {
    assert_eq!(Sign::Plus.flip(), Sign::Minus);
    assert_eq!(Sign::Minus.flip(), Sign::Plus);
    assert_eq!(Sign::Plus.multiply(Sign::Plus), Sign::Plus);
    assert_eq!(Sign::Plus.multiply(Sign::Minus), Sign::Minus);
    assert_eq!(Sign::Minus.multiply(Sign::Plus), Sign::Minus);
    assert_eq!(Sign::Minus.multiply(Sign::Minus), Sign::Plus);
}

fn unit(name: &str) -> Rc<RawDimension> {
    Rc::new(RawDimension::Unite(Rc::new(name.to_owned())))
}

#[test]
fn flatten_walks_the_tree_with_a_running_power() {
    let force = RawDimension::Composit(
        Rc::new(RawDimension::Composit(unit("M"), Operator::Mul, unit("L"))),
        Operator::Div,
        Rc::new(RawDimension::Power(Power::new(
            Rc::new(RawDimension::Power(Power::new(unit("T"), Sign::Plus, 2))),
            Sign::Minus,
            3,
        ))),
    );
    let flat = force.flatten().unwrap();
    assert_eq!(
        entries(&flat),
        vec![
            ("M".to_owned(), Sign::Plus, 1),
            ("L".to_owned(), Sign::Plus, 1),
            ("T".to_owned(), Sign::Plus, 6),
        ]
    );
}

#[test]
fn flatten_gives_up_where_a_power_does_not_fit() {
    let huge = RawDimension::Power(Power::new(
        Rc::new(RawDimension::Power(Power::new(unit("T"), Sign::Plus, 65536))),
        Sign::Plus,
        65536,
    ));
    assert!(huge.flatten().is_none());
    assert!(Dimension::from(huge).is_none());
}

#[test]
fn dimensions_with_the_same_units_are_equal() {
    let a = Dimension::from(RawDimension::Composit(unit("M"), Operator::Mul, unit("L"))).unwrap();
    let b = Dimension::from(RawDimension::Composit(unit("M"), Operator::Div, unit("L"))).unwrap();
    let c = Dimension::from(RawDimension::Composit(unit("L"), Operator::Mul, unit("M"))).unwrap();
    assert!(a.eq(&b));
    assert!(!a.eq(&c));
    assert_eq!(a.hash(), a.flattened().hash());
    assert_eq!(
        entries(c.flattened()),
        vec![("L".to_owned(), Sign::Plus, 1), ("M".to_owned(), Sign::Plus, 1)]
    );
}
