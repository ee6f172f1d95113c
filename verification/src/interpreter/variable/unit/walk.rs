//! Building a unit from an expression tree.

use crate::error::{Cause, ErrorKind};
use crate::exponent::{
    lemma_power_at, lemma_power_positive, lemma_prefix_power_step, power_in, prefix_power,
    ExponentMap, Model,
};
use crate::exponent::{fraction, lemma_fraction_unique};
use crate::exponent::Sides;
use crate::interpreter::scope::{fuel_of, lookup, TowerModel, TowerScope};
use crate::interpreter::variable::unit::expand::{cause_of, forced, lemma_forced_size};
use crate::interpreter::variable::unit::Unit;
use crate::interpreter::variable::{canon_bottom, canon_top, has_canon};
use crate::parser::Expr;
use vstd::prelude::*;

verus! {

/// The size of a signed power.
pub open spec fn magnitude(n: i32) -> nat {
    if n < 0 {
        (-(n as int)) as nat
    } else {
        n as nat
    }
}

/// The other side.
pub open spec fn flipped(side: bool) -> bool {
    !side
}

/// What walking `expr` adds to the exponent of `k` in the numerator, where
/// `mult` is the running power and `to_top` says that the running target
/// side is the numerator. With `eager` a name stands for the expansion of
/// what it is bound to; else for itself.
///
/// What the walk adds to the denominator is what it would add to the
/// numerator with the target side flipped.
pub open spec fn added(
    expr: Expr,
    mult: nat,
    to_top: bool,
    eager: bool,
    scopes: TowerModel,
    k: Seq<char>,
) -> nat
    decreases expr,
{
    match expr {
        Expr::Ident(name) => if eager {
            if to_top {
                canon_top((lookup(scopes, name.item@)->0).variable, k) * mult
            } else {
                canon_bottom((lookup(scopes, name.item@)->0).variable, k) * mult
            }
        } else if to_top && name.item@ == k {
            mult
        } else {
            0
        },
        Expr::Mul(left, right) => added(left.item, mult, to_top, eager, scopes, k) + added(
            right.item,
            mult,
            to_top,
            eager,
            scopes,
            k,
        ),
        Expr::Div(left, right) => added(left.item, mult, to_top, eager, scopes, k) + added(
            right.item,
            mult,
            flipped(to_top),
            eager,
            scopes,
            k,
        ),
        Expr::Power(base, n) => if n > 0 {
            added(base.item, mult * magnitude(n), to_top, eager, scopes, k)
        } else if n < 0 {
            added(base.item, mult * magnitude(n), flipped(to_top), eager, scopes, k)
        } else {
            0
        },
        Expr::Simplify(inner) => added(inner.item, mult, to_top, true, scopes, k),
        Expr::Empty => 0,
    }
}

/// The first name, walking `expr` from left to right, that has to be
/// expanded and that no scope binds. A subtree raised to the power zero is
/// not walked.
pub open spec fn unresolved(expr: Expr, eager: bool, scopes: TowerModel) -> Option<Seq<char>>
    decreases expr,
{
    match expr {
        Expr::Ident(name) => if eager && lookup(scopes, name.item@) is None {
            Some(name.item@)
        } else {
            None
        },
        Expr::Mul(left, right) => if unresolved(left.item, eager, scopes) is Some {
            unresolved(left.item, eager, scopes)
        } else {
            unresolved(right.item, eager, scopes)
        },
        Expr::Div(left, right) => if unresolved(left.item, eager, scopes) is Some {
            unresolved(left.item, eager, scopes)
        } else {
            unresolved(right.item, eager, scopes)
        },
        Expr::Power(base, n) => if n == 0 {
            None
        } else {
            unresolved(base.item, eager, scopes)
        },
        Expr::Simplify(inner) => unresolved(inner.item, true, scopes),
        Expr::Empty => None,
    }
}

/// Every name that the walk of `expr` has to expand is bound to something
/// that has an expansion. A subtree raised to the power zero is not walked.
pub open spec fn expandable(expr: Expr, eager: bool, scopes: TowerModel) -> bool
    decreases expr,
{
    match expr {
        Expr::Ident(name) => !eager || has_canon((lookup(scopes, name.item@)->0).variable),
        Expr::Mul(left, right) => expandable(left.item, eager, scopes) && expandable(
            right.item,
            eager,
            scopes,
        ),
        Expr::Div(left, right) => expandable(left.item, eager, scopes) && expandable(
            right.item,
            eager,
            scopes,
        ),
        Expr::Power(base, n) => n == 0 || expandable(base.item, eager, scopes),
        Expr::Simplify(inner) => expandable(inner.item, true, scopes),
        Expr::Empty => true,
    }
}

/// One side has room for what the walk adds to it.
pub open spec fn side_room(
    side: Model,
    expr: Expr,
    mult: nat,
    to_top: bool,
    eager: bool,
    scopes: TowerModel,
) -> bool {
    forall|k: Seq<char>|
        power_in(side, k) + #[trigger] added(expr, mult, to_top, eager, scopes, k) <= u32::MAX
}

/// Both sides have room for what the walk adds to them.
pub open spec fn room(
    top: Model,
    bottom: Model,
    expr: Expr,
    mult: nat,
    to_top: bool,
    eager: bool,
    scopes: TowerModel,
) -> bool {
    side_room(top, expr, mult, to_top, eager, scopes) && side_room(
        bottom,
        expr,
        mult,
        flipped(to_top),
        eager,
        scopes,
    )
}

/// The signed exponent of `k` in the unit that `expr` denotes.
pub open spec fn denoted(expr: Expr, eager: bool, scopes: TowerModel, k: Seq<char>) -> int {
    added(expr, 1, true, eager, scopes, k) - added(expr, 1, false, eager, scopes, k)
}

/// The signed exponents in the unit that `expr` denotes.
pub open spec fn denoted_fn(expr: Expr, eager: bool, scopes: TowerModel) -> spec_fn(
    Seq<char>,
) -> int {
    |k: Seq<char>| denoted(expr, eager, scopes, k)
}

/// What the walk of `expr` has to expand has an expansion, and every power
/// that it collects, on either side, fits the machine word.
pub open spec fn build_fits(expr: Expr, eager: bool, scopes: TowerModel) -> bool {
    &&& expandable(expr, eager, scopes)
    &&& forall|k: Seq<char>| #[trigger] added(expr, 1, true, eager, scopes, k) <= u32::MAX
    &&& forall|k: Seq<char>| #[trigger] added(expr, 1, false, eager, scopes, k) <= u32::MAX
}

/// What asking for the expansions of the names that the walk of `expr`
/// has to expand leaves, and how it ends: they are asked from left to
/// right, and the first failure ends the asking. A subtree raised to the
/// power zero is not walked.
pub open spec fn forced_names(expr: Expr, eager: bool, m: TowerModel, fuel: nat) -> (
    Option<Cause>,
    TowerModel,
)
    decreases expr,
{
    match expr {
        Expr::Ident(name) => if eager {
            forced(m, name.item@, fuel)
        } else {
            (None, m)
        },
        Expr::Mul(left, right) => {
            let first = forced_names(left.item, eager, m, fuel);
            if first.0 is Some {
                first
            } else {
                forced_names(right.item, eager, first.1, fuel)
            }
        },
        Expr::Div(left, right) => {
            let first = forced_names(left.item, eager, m, fuel);
            if first.0 is Some {
                first
            } else {
                forced_names(right.item, eager, first.1, fuel)
            }
        },
        Expr::Power(base, n) => if n == 0 {
            (None, m)
        } else {
            forced_names(base.item, eager, m, fuel)
        },
        Expr::Simplify(inner) => forced_names(inner.item, true, m, fuel),
        Expr::Empty => (None, m),
    }
}

/// The sides of the unit that `expr` denotes in scopes whose bindings
/// store the expansions that the walk needs, or why there is none.
pub open spec fn walked(expr: Expr, eager: bool, m: TowerModel) -> Result<Sides, Cause> {
    if unresolved(expr, eager, m) is Some {
        Err(Cause::NotDeclared(unresolved(expr, eager, m)->0))
    } else if !build_fits(expr, eager, m) {
        Err(Cause::Overflow)
    } else {
        Ok(fraction(denoted_fn(expr, eager, m)))
    }
}

/// The sides of the unit that `expr` denotes, and what building it leaves
/// in the scopes: the names that have to be expanded are asked for their
/// expansions first, and the tree is walked then.
pub open spec fn built_unit(expr: Expr, eager: bool, m: TowerModel) -> (
    Result<Sides, Cause>,
    TowerModel,
) {
    let asked = forced_names(expr, eager, m, fuel_of(m));
    if asked.0 is Some {
        (Err(asked.0->0), asked.1)
    } else {
        (walked(expr, eager, asked.1), asked.1)
    }
}

/// Asking for the expansions that a walk needs changes no count of
/// bindings.
pub proof fn lemma_forced_names_size(expr: Expr, eager: bool, m: TowerModel, fuel: nat)
    ensures
        fuel_of(forced_names(expr, eager, m, fuel).1) == fuel_of(m),
        forced_names(expr, eager, m, fuel).1.len() == m.len(),
    decreases expr,
{
    match expr {
        Expr::Ident(name) => {
            lemma_forced_size(m, name.item@, fuel);
        },
        Expr::Mul(left, right) => {
            lemma_forced_names_size(left.item, eager, m, fuel);
            lemma_forced_names_size(
                right.item,
                eager,
                forced_names(left.item, eager, m, fuel).1,
                fuel,
            );
        },
        Expr::Div(left, right) => {
            lemma_forced_names_size(left.item, eager, m, fuel);
            lemma_forced_names_size(
                right.item,
                eager,
                forced_names(left.item, eager, m, fuel).1,
                fuel,
            );
        },
        Expr::Power(base, n) => {
            lemma_forced_names_size(base.item, eager, m, fuel);
        },
        Expr::Simplify(inner) => {
            lemma_forced_names_size(inner.item, true, m, fuel);
        },
        Expr::Empty => {},
    }
}

/// Asks for the expansions of the names that the walk of `expr` has to
/// expand.
fn force_names(expr: &Expr, eager: bool, scopes: &mut TowerScope, fuel: usize) -> (r: Result<
    (),
    ErrorKind,
>)
    requires
        old(scopes).wf(),
    ensures
        final(scopes).wf(),
        forced_names(*expr, eager, old(scopes)@, fuel as nat) == (cause_of(r), final(scopes)@),
    decreases *expr,
{
    match expr {
        Expr::Ident(name) => {
            if eager {
                scopes.force(name.as_str(), fuel)
            } else {
                Ok(())
            }
        },
        Expr::Mul(left, right) => {
            match force_names(&left.item, eager, scopes, fuel) {
                Ok(_) => force_names(&right.item, eager, scopes, fuel),
                Err(e) => Err(e),
            }
        },
        Expr::Div(left, right) => {
            match force_names(&left.item, eager, scopes, fuel) {
                Ok(_) => force_names(&right.item, eager, scopes, fuel),
                Err(e) => Err(e),
            }
        },
        Expr::Power(base, n) => {
            if *n == 0 {
                Ok(())
            } else {
                force_names(&base.item, eager, scopes, fuel)
            }
        },
        Expr::Simplify(inner) => force_names(&inner.item, true, scopes, fuel),
        Expr::Empty => Ok(()),
    }
}

proof fn lemma_product_grows(p: nat, m: nat)
    requires
        p >= 1,
    ensures
        p * m >= m,
{
    assert(p * m >= m) by (nonlinear_arith)
        requires
            p >= 1,
    ;
}

/// Adds to every power of `acc` the power of the same name in `src` times
/// the running power.
fn add_scaled(acc: ExponentMap, src: &ExponentMap, mult: Option<u32>, Ghost(m): Ghost<nat>) -> (r:
    Option<ExponentMap>)
    requires
        acc.wf(),
        src.wf(),
        mult matches Some(x) ==> x == m,
        mult is None ==> m > u32::MAX,
    ensures
        r is Some <==> forall|k: Seq<char>|
            power_in(acc@, k) + #[trigger] power_in(src@, k) * m <= u32::MAX,
        r matches Some(t) ==> t.wf() && forall|k: Seq<char>|
            power_in(t@, k) == power_in(acc@, k) + #[trigger] power_in(src@, k) * m,
{
    let ghost start = acc@;
    let mut t = acc;
    let mut i: usize = 0;
    proof {
        assert forall|k: Seq<char>|
            power_in(t@, k) == power_in(start, k) + #[trigger] prefix_power(src@, 0, k) * m by {
            assert(prefix_power(src@, 0, k) == 0);
            assert(0 * m == 0);
        }
    }
    while i < src.len()
        invariant
            t.wf(),
            src.wf(),
            acc.wf(),
            i <= src@.len(),
            start == acc@,
            mult matches Some(x) ==> x == m,
            mult is None ==> m > u32::MAX,
            forall|k: Seq<char>|
                power_in(t@, k) == power_in(start, k) + #[trigger] prefix_power(
                    src@,
                    i as int,
                    k,
                ) * m,
        decreases src@.len() - i,
    {
        let name = src.name_at(i);
        let power = src.power_at(i);
        let ghost key = src@[i as int].0;
        proof {
            lemma_power_at(src@, i as int);
            lemma_prefix_power_step(src@, i as int, key);
            assert(power_in(t@, key) == power_in(start, key) + prefix_power(src@, i as int, key)
                * m);
            assert(0 * m == 0);
            lemma_product_grows(power as nat, m);
            lemma_power_positive(start, key);
        }
        let factor = match mult {
            Some(x) => x,
            None => {
                assert(power_in(start, key) + power_in(src@, key) * m > u32::MAX);
                return None;
            },
        };
        let scaled = match power.checked_mul(factor) {
            Some(v) => v,
            None => {
                assert(power_in(start, key) + power_in(src@, key) * m > u32::MAX);
                return None;
            },
        };
        let have = t.get(name.as_str());
        let sum = match have.checked_add(scaled) {
            Some(v) => v,
            None => {
                assert(power_in(start, key) + power_in(src@, key) * m > u32::MAX);
                return None;
            },
        };
        let ghost before = t@;
        t.put(name.as_str(), sum);
        proof {
            assert forall|k: Seq<char>|
                power_in(t@, k) == power_in(start, k) + #[trigger] prefix_power(
                    src@,
                    i as int + 1,
                    k,
                ) * m by {
                lemma_prefix_power_step(src@, i as int, k);
                assert(power_in(before, k) == power_in(start, k) + prefix_power(
                    src@,
                    i as int,
                    k,
                ) * m);
            }
        }
        i += 1;
    }
    proof {
        assert forall|k: Seq<char>|
            power_in(t@, k) == power_in(start, k) + #[trigger] power_in(src@, k) * m by {
            if src@.len() > 0 {
                lemma_prefix_power_step(src@, 0, k);
            } else {
                assert(!crate::exponent::has_key(src@, k));
            }
            assert(power_in(t@, k) == power_in(start, k) + prefix_power(
                src@,
                src@.len() as int,
                k,
            ) * m);
        }
        assert forall|k: Seq<char>|
            power_in(start, k) + #[trigger] power_in(src@, k) * m <= u32::MAX by {
            lemma_power_positive(t@, k);
            assert(power_in(t@, k) == power_in(start, k) + power_in(src@, k) * m);
        }
    }
    Some(t)
}

/// Adds the running power to the power of `name` in `acc`.
fn raise(acc: ExponentMap, name: &str, mult: Option<u32>, Ghost(m): Ghost<nat>) -> (r: Option<
    ExponentMap,
>)
    requires
        acc.wf(),
        mult matches Some(x) ==> x == m,
        mult is None ==> m > u32::MAX,
    ensures
        r is Some <==> power_in(acc@, name@) + m <= u32::MAX,
        r matches Some(t) ==> t.wf() && forall|k: Seq<char>|
            power_in(t@, k) == power_in(acc@, k) + if k == name@ {
                m
            } else {
                0
            },
{
    let mut t = acc;
    let factor = match mult {
        Some(x) => x,
        None => {
            return None;
        },
    };
    let have = t.get(name);
    match have.checked_add(factor) {
        Some(sum) => {
            t.put(name, sum);
            Some(t)
        },
        None => None,
    }
}

/// The running power times the size of `n`, where that fits.
fn scale_power(mult: Option<u32>, n: i32, Ghost(m): Ghost<nat>) -> (r: Option<u32>)
    requires
        n != 0,
        mult matches Some(x) ==> x == m,
        mult is None ==> m > u32::MAX,
    ensures
        r matches Some(x) ==> x == m * magnitude(n),
        r is None ==> m * magnitude(n) > u32::MAX,
{
    let size: u32 = if n > 0 {
        n as u32
    } else if n == i32::MIN {
        2147483648u32
    } else {
        (-n) as u32
    };
    assert(size == magnitude(n));
    proof {
        lemma_product_grows(size as nat, m);
        assert(m * magnitude(n) == magnitude(n) * m) by (nonlinear_arith);
    }
    match mult {
        Some(x) => x.checked_mul(size),
        None => None,
    }
}

/// Walks `expr` and adds what it denotes to the two sides.
fn accumulate(
    expr: &Expr,
    scopes: &TowerScope,
    mult: Option<u32>,
    Ghost(m): Ghost<nat>,
    to_top: bool,
    eager: bool,
    top: ExponentMap,
    bottom: ExponentMap,
) -> (r: Option<(ExponentMap, ExponentMap)>)
    requires
        scopes.wf(),
        top.wf(),
        bottom.wf(),
        unresolved(*expr, eager, scopes@) is None,
        mult matches Some(x) ==> x == m,
        mult is None ==> m > u32::MAX,
    ensures
        r is Some <==> expandable(*expr, eager, scopes@) && room(
            top@,
            bottom@,
            *expr,
            m,
            to_top,
            eager,
            scopes@,
        ),
        r matches Some((t, b)) ==> {
            &&& t.wf()
            &&& b.wf()
            &&& forall|k: Seq<char>|
                power_in(t@, k) == power_in(top@, k) + #[trigger] added(
                    *expr,
                    m,
                    to_top,
                    eager,
                    scopes@,
                    k,
                )
            &&& forall|k: Seq<char>|
                power_in(b@, k) == power_in(bottom@, k) + #[trigger] added(
                    *expr,
                    m,
                    flipped(to_top),
                    eager,
                    scopes@,
                    k,
                )
        },
    decreases *expr,
{
    match expr {
        Expr::Ident(name) => {
            if eager {
                let bound = scopes.get_existing(name.as_str()).unwrap();
                let canon = match bound.item().simplify() {
                    Some(c) => c,
                    None => {
                        return None;
                    },
                };
                let (first, second) = if to_top {
                    (canon.top(), canon.bottom())
                } else {
                    (canon.bottom(), canon.top())
                };
                proof {
                    assert forall|k: Seq<char>|
                        #[trigger] added(*expr, m, to_top, eager, scopes@, k) == power_in(
                            first@,
                            k,
                        ) * m by {}
                    assert forall|k: Seq<char>|
                        #[trigger] added(*expr, m, flipped(to_top), eager, scopes@, k) == power_in(
                            second@,
                            k,
                        ) * m by {}
                }
                let t = add_scaled(top, first, mult, Ghost(m));
                let b = add_scaled(bottom, second, mult, Ghost(m));
                proof {
                    if t is Some && b is Some {
                        assert forall|k: Seq<char>|
                            power_in(top@, k) + #[trigger] added(
                                *expr,
                                m,
                                to_top,
                                eager,
                                scopes@,
                                k,
                            ) <= u32::MAX by {
                            assert(power_in(top@, k) + power_in(first@, k) * m <= u32::MAX);
                        }
                        assert forall|k: Seq<char>|
                            power_in(bottom@, k) + #[trigger] added(
                                *expr,
                                m,
                                flipped(to_top),
                                eager,
                                scopes@,
                                k,
                            ) <= u32::MAX by {
                            assert(power_in(bottom@, k) + power_in(second@, k) * m <= u32::MAX);
                        }
                    }
                    if room(top@, bottom@, *expr, m, to_top, eager, scopes@) {
                        assert forall|k: Seq<char>|
                            power_in(top@, k) + #[trigger] power_in(first@, k) * m
                                <= u32::MAX by {
                            assert(power_in(top@, k) + added(*expr, m, to_top, eager, scopes@, k)
                                <= u32::MAX);
                        }
                        assert forall|k: Seq<char>|
                            power_in(bottom@, k) + #[trigger] power_in(second@, k) * m
                                <= u32::MAX by {
                            assert(power_in(bottom@, k) + added(
                                *expr,
                                m,
                                flipped(to_top),
                                eager,
                                scopes@,
                                k,
                            ) <= u32::MAX);
                        }
                    }
                }
                match (t, b) {
                    (Some(t), Some(b)) => {
                        proof {
                            assert forall|k: Seq<char>|
                                power_in(t@, k) == power_in(top@, k) + #[trigger] added(
                                    *expr,
                                    m,
                                    to_top,
                                    eager,
                                    scopes@,
                                    k,
                                ) by {
                                assert(power_in(t@, k) == power_in(top@, k) + power_in(first@, k)
                                    * m);
                            }
                            assert forall|k: Seq<char>|
                                power_in(b@, k) == power_in(bottom@, k) + #[trigger] added(
                                    *expr,
                                    m,
                                    flipped(to_top),
                                    eager,
                                    scopes@,
                                    k,
                                ) by {
                                assert(power_in(b@, k) == power_in(bottom@, k) + power_in(
                                    second@,
                                    k,
                                ) * m);
                            }
                        }
                        Some((t, b))
                    },
                    _ => None,
                }
            } else if to_top {
                proof {
                    assert forall|k: Seq<char>|
                        power_in(bottom@, k) + #[trigger] added(
                            *expr,
                            m,
                            flipped(to_top),
                            eager,
                            scopes@,
                            k,
                        ) <= u32::MAX by {
                        lemma_power_positive(bottom@, k);
                    }
                }
                match raise(top, name.as_str(), mult, Ghost(m)) {
                    Some(t) => {
                        proof {
                            assert forall|k: Seq<char>|
                                power_in(top@, k) + #[trigger] added(
                                    *expr,
                                    m,
                                    to_top,
                                    eager,
                                    scopes@,
                                    k,
                                ) <= u32::MAX by {
                                lemma_power_positive(t@, k);
                            }
                        }
                        Some((t, bottom))
                    },
                    None => {
                        assert(power_in(top@, name.item@) + added(
                            *expr,
                            m,
                            to_top,
                            eager,
                            scopes@,
                            name.item@,
                        ) > u32::MAX);
                        None
                    },
                }
            } else {
                proof {
                    assert forall|k: Seq<char>|
                        power_in(top@, k) + #[trigger] added(
                            *expr,
                            m,
                            to_top,
                            eager,
                            scopes@,
                            k,
                        ) <= u32::MAX by {
                        lemma_power_positive(top@, k);
                    }
                }
                match raise(bottom, name.as_str(), mult, Ghost(m)) {
                    Some(b) => {
                        proof {
                            assert forall|k: Seq<char>|
                                power_in(bottom@, k) + #[trigger] added(
                                    *expr,
                                    m,
                                    flipped(to_top),
                                    eager,
                                    scopes@,
                                    k,
                                ) <= u32::MAX by {
                                lemma_power_positive(b@, k);
                            }
                        }
                        Some((top, b))
                    },
                    None => {
                        assert(power_in(bottom@, name.item@) + added(
                            *expr,
                            m,
                            flipped(to_top),
                            eager,
                            scopes@,
                            name.item@,
                        ) > u32::MAX);
                        None
                    },
                }
            }
        },
        Expr::Mul(left, right) => {
            let (t1, b1) = match accumulate(
                &left.item,
                scopes,
                mult,
                Ghost(m),
                to_top,
                eager,
                top,
                bottom,
            ) {
                Some(sides) => sides,
                None => {
                    proof {
                        if room(top@, bottom@, *expr, m, to_top, eager, scopes@) {
                            assert forall|k: Seq<char>|
                                power_in(top@, k) + #[trigger] added(
                                    left.item,
                                    m,
                                    to_top,
                                    eager,
                                    scopes@,
                                    k,
                                ) <= u32::MAX by {
                                assert(power_in(top@, k) + added(
                                    *expr,
                                    m,
                                    to_top,
                                    eager,
                                    scopes@,
                                    k,
                                ) <= u32::MAX);
                            }
                            assert forall|k: Seq<char>|
                                power_in(bottom@, k) + #[trigger] added(
                                    left.item,
                                    m,
                                    flipped(to_top),
                                    eager,
                                    scopes@,
                                    k,
                                ) <= u32::MAX by {
                                assert(power_in(bottom@, k) + added(
                                    *expr,
                                    m,
                                    flipped(to_top),
                                    eager,
                                    scopes@,
                                    k,
                                ) <= u32::MAX);
                            }
                        }
                    }
                    return None;
                },
            };
            let r = accumulate(&right.item, scopes, mult, Ghost(m), to_top, eager, t1, b1);
            proof {
                lemma_second_step(
                    top@,
                    bottom@,
                    t1@,
                    b1@,
                    *expr,
                    left.item,
                    right.item,
                    m,
                    m,
                    m,
                    to_top,
                    to_top,
                    to_top,
                    eager,
                    eager,
                    eager,
                    scopes@,
                );
                if r is Some {
                    lemma_sum_of_steps(
                        top@,
                        bottom@,
                        t1@,
                        b1@,
                        (r->0).0@,
                        (r->0).1@,
                        *expr,
                        left.item,
                        right.item,
                        m,
                        m,
                        m,
                        to_top,
                        to_top,
                        to_top,
                        eager,
                        eager,
                        eager,
                        scopes@,
                    );
                }
            }
            r
        },
        Expr::Div(left, right) => {
            let (t1, b1) = match accumulate(
                &left.item,
                scopes,
                mult,
                Ghost(m),
                to_top,
                eager,
                top,
                bottom,
            ) {
                Some(sides) => sides,
                None => {
                    proof {
                        if room(top@, bottom@, *expr, m, to_top, eager, scopes@) {
                            assert forall|k: Seq<char>|
                                power_in(top@, k) + #[trigger] added(
                                    left.item,
                                    m,
                                    to_top,
                                    eager,
                                    scopes@,
                                    k,
                                ) <= u32::MAX by {
                                assert(power_in(top@, k) + added(
                                    *expr,
                                    m,
                                    to_top,
                                    eager,
                                    scopes@,
                                    k,
                                ) <= u32::MAX);
                            }
                            assert forall|k: Seq<char>|
                                power_in(bottom@, k) + #[trigger] added(
                                    left.item,
                                    m,
                                    flipped(to_top),
                                    eager,
                                    scopes@,
                                    k,
                                ) <= u32::MAX by {
                                assert(power_in(bottom@, k) + added(
                                    *expr,
                                    m,
                                    flipped(to_top),
                                    eager,
                                    scopes@,
                                    k,
                                ) <= u32::MAX);
                            }
                        }
                    }
                    return None;
                },
            };
            let r = accumulate(&right.item, scopes, mult, Ghost(m), !to_top, eager, t1, b1);
            proof {
                lemma_second_step(
                    top@,
                    bottom@,
                    t1@,
                    b1@,
                    *expr,
                    left.item,
                    right.item,
                    m,
                    m,
                    m,
                    to_top,
                    to_top,
                    flipped(to_top),
                    eager,
                    eager,
                    eager,
                    scopes@,
                );
                if r is Some {
                    lemma_sum_of_steps(
                        top@,
                        bottom@,
                        t1@,
                        b1@,
                        (r->0).0@,
                        (r->0).1@,
                        *expr,
                        left.item,
                        right.item,
                        m,
                        m,
                        m,
                        to_top,
                        to_top,
                        flipped(to_top),
                        eager,
                        eager,
                        eager,
                        scopes@,
                    );
                }
            }
            r
        },
        Expr::Power(base, n) => {
            if *n == 0 {
                proof {
                    assert forall|k: Seq<char>|
                        power_in(top@, k) + #[trigger] added(
                            *expr,
                            m,
                            to_top,
                            eager,
                            scopes@,
                            k,
                        ) <= u32::MAX by {
                        lemma_power_positive(top@, k);
                    }
                    assert forall|k: Seq<char>|
                        power_in(bottom@, k) + #[trigger] added(
                            *expr,
                            m,
                            flipped(to_top),
                            eager,
                            scopes@,
                            k,
                        ) <= u32::MAX by {
                        lemma_power_positive(bottom@, k);
                    }
                }
                Some((top, bottom))
            } else {
                let scaled = scale_power(mult, *n, Ghost(m));
                let ghost m2 = m * magnitude(*n);
                let target = if *n > 0 {
                    to_top
                } else {
                    !to_top
                };
                let r = accumulate(&base.item, scopes, scaled, Ghost(m2), target, eager, top, bottom);
                proof {
                    assert forall|k: Seq<char>|
                        #[trigger] added(*expr, m, to_top, eager, scopes@, k) == added(
                            base.item,
                            m2,
                            target,
                            eager,
                            scopes@,
                            k,
                        ) by {}
                    assert forall|k: Seq<char>|
                        #[trigger] added(*expr, m, flipped(to_top), eager, scopes@, k) == added(
                            base.item,
                            m2,
                            flipped(target),
                            eager,
                            scopes@,
                            k,
                        ) by {}
                    lemma_same_room(
                        top@,
                        bottom@,
                        *expr,
                        base.item,
                        m,
                        m2,
                        to_top,
                        target,
                        eager,
                        eager,
                        scopes@,
                    );
                }
                r
            }
        },
        Expr::Simplify(inner) => {
            let r = accumulate(&inner.item, scopes, mult, Ghost(m), to_top, true, top, bottom);
            proof {
                assert forall|k: Seq<char>|
                    #[trigger] added(*expr, m, to_top, eager, scopes@, k) == added(
                        inner.item,
                        m,
                        to_top,
                        true,
                        scopes@,
                        k,
                    ) by {}
                assert forall|k: Seq<char>|
                    #[trigger] added(*expr, m, flipped(to_top), eager, scopes@, k) == added(
                        inner.item,
                        m,
                        flipped(to_top),
                        true,
                        scopes@,
                        k,
                    ) by {}
                lemma_same_room(
                    top@,
                    bottom@,
                    *expr,
                    inner.item,
                    m,
                    m,
                    to_top,
                    to_top,
                    eager,
                    true,
                    scopes@,
                );
            }
            r
        },
        Expr::Empty => {
            proof {
                assert forall|k: Seq<char>|
                    power_in(top@, k) + #[trigger] added(*expr, m, to_top, eager, scopes@, k)
                        <= u32::MAX by {
                    lemma_power_positive(top@, k);
                }
                assert forall|k: Seq<char>|
                    power_in(bottom@, k) + #[trigger] added(
                        *expr,
                        m,
                        flipped(to_top),
                        eager,
                        scopes@,
                        k,
                    ) <= u32::MAX by {
                    lemma_power_positive(bottom@, k);
                }
            }
            Some((top, bottom))
        },
    }
}

/// Where one walk adds what another adds, on both sides, the two have room
/// on the same sides.
proof fn lemma_same_room(
    top: Model,
    bottom: Model,
    whole: Expr,
    part: Expr,
    m: nat,
    m2: nat,
    to_top: bool,
    target: bool,
    eager: bool,
    eager2: bool,
    scopes: TowerModel,
)
    requires
        forall|k: Seq<char>|
            #[trigger] added(whole, m, to_top, eager, scopes, k) == added(
                part,
                m2,
                target,
                eager2,
                scopes,
                k,
            ),
        forall|k: Seq<char>|
            #[trigger] added(whole, m, flipped(to_top), eager, scopes, k) == added(
                part,
                m2,
                flipped(target),
                eager2,
                scopes,
                k,
            ),
    ensures
        room(top, bottom, whole, m, to_top, eager, scopes) == room(
            top,
            bottom,
            part,
            m2,
            target,
            eager2,
            scopes,
        ),
{
    if room(top, bottom, whole, m, to_top, eager, scopes) {
        assert forall|k: Seq<char>|
            power_in(top, k) + #[trigger] added(part, m2, target, eager2, scopes, k)
                <= u32::MAX by {
            assert(power_in(top, k) + added(whole, m, to_top, eager, scopes, k) <= u32::MAX);
        }
        assert forall|k: Seq<char>|
            power_in(bottom, k) + #[trigger] added(part, m2, flipped(target), eager2, scopes, k)
                <= u32::MAX by {
            assert(power_in(bottom, k) + added(whole, m, flipped(to_top), eager, scopes, k) <= u32::MAX);
        }
    }
    if room(top, bottom, part, m2, target, eager2, scopes) {
        assert forall|k: Seq<char>|
            power_in(top, k) + #[trigger] added(whole, m, to_top, eager, scopes, k)
                <= u32::MAX by {
            assert(power_in(top, k) + added(part, m2, target, eager2, scopes, k) <= u32::MAX);
        }
        assert forall|k: Seq<char>|
            power_in(bottom, k) + #[trigger] added(whole, m, flipped(to_top), eager, scopes, k)
                <= u32::MAX by {
            assert(power_in(bottom, k) + added(part, m2, flipped(target), eager2, scopes, k) <= u32::MAX);
        }
    }
}

/// After the first of two walks has been taken in, the whole has room
/// exactly when the second walk has.
proof fn lemma_second_step(
    top: Model,
    bottom: Model,
    t1: Model,
    b1: Model,
    whole: Expr,
    first: Expr,
    second: Expr,
    m: nat,
    m1: nat,
    m2: nat,
    to_top: bool,
    target1: bool,
    target2: bool,
    eager: bool,
    eager1: bool,
    eager2: bool,
    scopes: TowerModel,
)
    requires
        forall|k: Seq<char>|
            #[trigger] added(whole, m, to_top, eager, scopes, k) == added(
                first,
                m1,
                target1,
                eager1,
                scopes,
                k,
            ) + added(second, m2, target2, eager2, scopes, k),
        forall|k: Seq<char>|
            #[trigger] added(whole, m, flipped(to_top), eager, scopes, k) == added(
                first,
                m1,
                flipped(target1),
                eager1,
                scopes,
                k,
            ) + added(second, m2, flipped(target2), eager2, scopes, k),
        forall|k: Seq<char>|
            power_in(t1, k) == power_in(top, k) + #[trigger] added(
                first,
                m1,
                target1,
                eager1,
                scopes,
                k,
            ),
        forall|k: Seq<char>|
            power_in(b1, k) == power_in(bottom, k) + #[trigger] added(
                first,
                m1,
                flipped(target1),
                eager1,
                scopes,
                k,
            ),
    ensures
        room(top, bottom, whole, m, to_top, eager, scopes) == room(
            t1,
            b1,
            second,
            m2,
            target2,
            eager2,
            scopes,
        ),
{
    if room(top, bottom, whole, m, to_top, eager, scopes) {
        assert forall|k: Seq<char>|
            power_in(t1, k) + #[trigger] added(second, m2, target2, eager2, scopes, k)
                <= u32::MAX by {
            assert(power_in(top, k) + added(whole, m, to_top, eager, scopes, k) <= u32::MAX);
            assert(power_in(t1, k) == power_in(top, k) + added(
                first,
                m1,
                target1,
                eager1,
                scopes,
                k,
            ));
        }
        assert forall|k: Seq<char>|
            power_in(b1, k) + #[trigger] added(second, m2, flipped(target2), eager2, scopes, k)
                <= u32::MAX by {
            assert(power_in(bottom, k) + added(whole, m, flipped(to_top), eager, scopes, k) <= u32::MAX);
            assert(power_in(b1, k) == power_in(bottom, k) + added(
                first,
                m1,
                flipped(target1),
                eager1,
                scopes,
                k,
            ));
        }
    }
    if room(t1, b1, second, m2, target2, eager2, scopes) {
        assert forall|k: Seq<char>|
            power_in(top, k) + #[trigger] added(whole, m, to_top, eager, scopes, k)
                <= u32::MAX by {
            assert(power_in(t1, k) + added(second, m2, target2, eager2, scopes, k) <= u32::MAX);
            assert(power_in(t1, k) == power_in(top, k) + added(
                first,
                m1,
                target1,
                eager1,
                scopes,
                k,
            ));
        }
        assert forall|k: Seq<char>|
            power_in(bottom, k) + #[trigger] added(whole, m, flipped(to_top), eager, scopes, k)
                <= u32::MAX by {
            assert(power_in(b1, k) + added(second, m2, flipped(target2), eager2, scopes, k) <= u32::MAX);
            assert(power_in(b1, k) == power_in(bottom, k) + added(
                first,
                m1,
                flipped(target1),
                eager1,
                scopes,
                k,
            ));
        }
    }
}

/// What two walks in a row leave on each side is what the whole adds.
proof fn lemma_sum_of_steps(
    top: Model,
    bottom: Model,
    t1: Model,
    b1: Model,
    t: Model,
    b: Model,
    whole: Expr,
    first: Expr,
    second: Expr,
    m: nat,
    m1: nat,
    m2: nat,
    to_top: bool,
    target1: bool,
    target2: bool,
    eager: bool,
    eager1: bool,
    eager2: bool,
    scopes: TowerModel,
)
    requires
        forall|k: Seq<char>|
            #[trigger] added(whole, m, to_top, eager, scopes, k) == added(
                first,
                m1,
                target1,
                eager1,
                scopes,
                k,
            ) + added(second, m2, target2, eager2, scopes, k),
        forall|k: Seq<char>|
            #[trigger] added(whole, m, flipped(to_top), eager, scopes, k) == added(
                first,
                m1,
                flipped(target1),
                eager1,
                scopes,
                k,
            ) + added(second, m2, flipped(target2), eager2, scopes, k),
        forall|k: Seq<char>|
            power_in(t1, k) == power_in(top, k) + #[trigger] added(
                first,
                m1,
                target1,
                eager1,
                scopes,
                k,
            ),
        forall|k: Seq<char>|
            power_in(b1, k) == power_in(bottom, k) + #[trigger] added(
                first,
                m1,
                flipped(target1),
                eager1,
                scopes,
                k,
            ),
        forall|k: Seq<char>|
            power_in(t, k) == power_in(t1, k) + #[trigger] added(
                second,
                m2,
                target2,
                eager2,
                scopes,
                k,
            ),
        forall|k: Seq<char>|
            power_in(b, k) == power_in(b1, k) + #[trigger] added(
                second,
                m2,
                flipped(target2),
                eager2,
                scopes,
                k,
            ),
    ensures
        forall|k: Seq<char>|
            power_in(t, k) == power_in(top, k) + #[trigger] added(
                whole,
                m,
                to_top,
                eager,
                scopes,
                k,
            ),
        forall|k: Seq<char>|
            power_in(b, k) == power_in(bottom, k) + #[trigger] added(
                whole,
                m,
                flipped(to_top),
                eager,
                scopes,
                k,
            ),
{
    assert forall|k: Seq<char>|
        power_in(t, k) == power_in(top, k) + #[trigger] added(
            whole,
            m,
            to_top,
            eager,
            scopes,
            k,
        ) by {
        assert(power_in(t, k) == power_in(t1, k) + added(second, m2, target2, eager2, scopes, k));
        assert(power_in(t1, k) == power_in(top, k) + added(first, m1, target1, eager1, scopes, k));
    }
    assert forall|k: Seq<char>|
        power_in(b, k) == power_in(bottom, k) + #[trigger] added(
            whole,
            m,
            flipped(to_top),
            eager,
            scopes,
            k,
        ) by {
        assert(power_in(b, k) == power_in(b1, k) + added(second, m2, flipped(target2), eager2, scopes, k));
        assert(power_in(b1, k) == power_in(bottom, k) + added(
            first,
            m1,
            flipped(target1),
            eager1,
            scopes,
            k,
        ));
    }
}

/// The first name of `expr` that has to be expanded and that no scope
/// binds.
fn first_unresolved(expr: &Expr, eager: bool, scopes: &TowerScope) -> (r: Option<String>)
    ensures
        r is Some <==> unresolved(*expr, eager, scopes@) is Some,
        r matches Some(n) ==> n@ == unresolved(*expr, eager, scopes@)->0,
    decreases *expr,
{
    match expr {
        Expr::Ident(name) => {
            if eager && !scopes.contains(name.as_str()) {
                Some(name.item.clone())
            } else {
                None
            }
        },
        Expr::Mul(left, right) => {
            let first = first_unresolved(&left.item, eager, scopes);
            if first.is_some() {
                first
            } else {
                first_unresolved(&right.item, eager, scopes)
            }
        },
        Expr::Div(left, right) => {
            let first = first_unresolved(&left.item, eager, scopes);
            if first.is_some() {
                first
            } else {
                first_unresolved(&right.item, eager, scopes)
            }
        },
        Expr::Power(base, n) => {
            if *n == 0 {
                None
            } else {
                first_unresolved(&base.item, eager, scopes)
            }
        },
        Expr::Simplify(inner) => first_unresolved(&inner.item, true, scopes),
        Expr::Empty => None,
    }
}

impl Unit {
    /// The unit that `expr` denotes in scopes whose bindings store the
    /// expansions that the walk needs.
    ///
    /// The tree is walked with a target side, which starts as the numerator
    /// and flips under a division's right operand and under a negative
    /// power, and with a running power, which starts at one and is
    /// multiplied by the size of each power on the way. A name adds the
    /// running power to its own entry on the target side; with
    /// `eager_simplify`, or below a simplify node, it adds instead the
    /// expansion that its binding stores, scaled by the running power. A
    /// subtree raised to the power zero adds nothing. What stands on both
    /// sides in the end is cancelled.
    ///
    /// Fails with the first name that has to be expanded and that no scope
    /// binds; else where a binding stores no expansion or a collected power
    /// leaves the machine word.
    pub fn walk_in(expr: &Expr, scopes: &TowerScope, eager_simplify: bool) -> (r: Result<
        Unit,
        ErrorKind,
    >)
        requires
            scopes.wf(),
        ensures
            match r {
                Ok(u) => {
                    &&& unresolved(*expr, eager_simplify, scopes@) is None
                    &&& build_fits(*expr, eager_simplify, scopes@)
                    &&& u.wf()
                    &&& u.cached() is None
                    &&& forall|k: Seq<char>|
                        u.exp(k) == denoted(*expr, eager_simplify, scopes@, k)
                    &&& u.sides() == fraction(denoted_fn(*expr, eager_simplify, scopes@))
                },
                Err(e) => if unresolved(*expr, eager_simplify, scopes@) is Some {
                    e@ == Cause::NotDeclared(unresolved(*expr, eager_simplify, scopes@)->0)
                } else {
                    !build_fits(*expr, eager_simplify, scopes@) && e@ == Cause::Overflow
                },
            },
    {
        if let Some(name) = first_unresolved(expr, eager_simplify, scopes) {
            return Err(ErrorKind::VariableNotDeclared(name));
        }
        let top = ExponentMap::new();
        let bottom = ExponentMap::new();
        proof {
            assert forall|k: Seq<char>| power_in(top@, k) == 0 && power_in(bottom@, k) == 0 by {
                assert(!crate::exponent::has_key(top@, k));
                assert(!crate::exponent::has_key(bottom@, k));
            }
            if build_fits(*expr, eager_simplify, scopes@) {
                assert forall|k: Seq<char>|
                    power_in(top@, k) + #[trigger] added(
                        *expr,
                        1,
                        true,
                        eager_simplify,
                        scopes@,
                        k,
                    ) <= u32::MAX by {}
                assert forall|k: Seq<char>|
                    power_in(bottom@, k) + #[trigger] added(
                        *expr,
                        1,
                        false,
                        eager_simplify,
                        scopes@,
                        k,
                    ) <= u32::MAX by {}
            }
            if room(top@, bottom@, *expr, 1, true, eager_simplify, scopes@) {
                assert forall|k: Seq<char>| #[trigger]
                    added(*expr, 1, true, eager_simplify, scopes@, k) <= u32::MAX by {
                    assert(power_in(top@, k) + added(*expr, 1, true, eager_simplify, scopes@, k)
                        <= u32::MAX);
                }
                assert forall|k: Seq<char>| #[trigger]
                    added(*expr, 1, false, eager_simplify, scopes@, k) <= u32::MAX by {
                    assert(power_in(bottom@, k) + added(
                        *expr,
                        1,
                        false,
                        eager_simplify,
                        scopes@,
                        k,
                    ) <= u32::MAX);
                }
            }
        }
        match accumulate(expr, scopes, Some(1), Ghost(1), true, eager_simplify, top, bottom) {
            Some((t, b)) => {
                let u = Unit::new(t, b);
                proof {
                    assert forall|k: Seq<char>|
                        u.exp(k) == denoted(*expr, eager_simplify, scopes@, k) by {
                        assert(power_in(t@, k) == power_in(top@, k) + added(
                            *expr,
                            1,
                            true,
                            eager_simplify,
                            scopes@,
                            k,
                        ));
                        assert(power_in(b@, k) == power_in(bottom@, k) + added(
                            *expr,
                            1,
                            false,
                            eager_simplify,
                            scopes@,
                            k,
                        ));
                    }
                    let f = denoted_fn(*expr, eager_simplify, scopes@);
                    assert forall|k: Seq<char>|
                        #[trigger] crate::exponent::net(u.sides().0, u.sides().1, k) == f(k) by {
                        assert(u.exp(k) == denoted(*expr, eager_simplify, scopes@, k));
                    }
                    lemma_fraction_unique(u.sides(), u.sides(), f);
                }
                Ok(u)
            },
            None => Err(ErrorKind::ExponentOverflow),
        }
    }

    /// The unit that `value` denotes, every name standing for itself unless
    /// the expression asks for its expansion.
    pub fn from(value: &Expr, scopes: &mut TowerScope) -> (r: Result<Unit, ErrorKind>)
        requires
            old(scopes).wf(),
        ensures
            final(scopes).wf(),
            final(scopes)@ == built_unit(*value, false, old(scopes)@).1,
            final(scopes)@.len() == old(scopes)@.len(),
            fuel_of(final(scopes)@) == fuel_of(old(scopes)@),
            match r {
                Ok(u) => {
                    &&& built_unit(*value, false, old(scopes)@).0 == Ok::<Sides, Cause>(u.sides())
                    &&& u.wf()
                    &&& u.cached() is None
                },
                Err(e) => built_unit(*value, false, old(scopes)@).0 == Err::<Sides, Cause>(e@),
            },
    {
        Unit::from_expression(value, scopes, false)
    }

    /// The unit that `expr` denotes. The names that have to be expanded, all
    /// of them with `eager_simplify` and else those below a simplify node,
    /// are asked for their expansions first, from left to right; the tree
    /// is walked then, as `walk_in` says.
    pub fn from_expression(expr: &Expr, scopes: &mut TowerScope, eager_simplify: bool) -> (r:
        Result<Unit, ErrorKind>)
        requires
            old(scopes).wf(),
        ensures
            final(scopes).wf(),
            final(scopes)@ == built_unit(*expr, eager_simplify, old(scopes)@).1,
            final(scopes)@.len() == old(scopes)@.len(),
            fuel_of(final(scopes)@) == fuel_of(old(scopes)@),
            match r {
                Ok(u) => {
                    &&& built_unit(*expr, eager_simplify, old(scopes)@).0 == Ok::<Sides, Cause>(
                        u.sides(),
                    )
                    &&& u.wf()
                    &&& u.cached() is None
                },
                Err(e) => built_unit(*expr, eager_simplify, old(scopes)@).0 == Err::<
                    Sides,
                    Cause,
                >(e@),
            },
    {
        let fuel = scopes.fuel();
        proof {
            lemma_forced_names_size(*expr, eager_simplify, scopes@, fuel as nat);
        }
        match force_names(expr, eager_simplify, scopes, fuel) {
            Ok(_) => {},
            Err(e) => {
                return Err(e);
            },
        }
        Unit::walk_in(expr, scopes, eager_simplify)
    }
}

} // verus!
