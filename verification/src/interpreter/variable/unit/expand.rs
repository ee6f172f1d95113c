//! Expanding a unit into primitive units.

use crate::error::{Cause, ErrorKind};
use crate::exponent::{
    fraction, lemma_fraction_unique, lemma_power_at, lemma_power_positive,
    lemma_prefix_power_step, net, power_in, prefix_power, reduced_sides, valid_model,
    ExponentMap, Model, Sides,
};
use crate::interpreter::scope::{
    fuel_of, lemma_stored_size, lookup, stored, TowerModel, TowerScope,
};
use crate::interpreter::variable::unit::{Unit, UnitView};
use crate::interpreter::variable::{canon_exp, has_canon, Variable, VariableView};
use vstd::prelude::*;

verus! {

/// What one entry gives to the exponent of `a`: the expansion of its name,
/// raised to its power.
pub open spec fn term(e: (Seq<char>, nat), scopes: TowerModel, a: Seq<char>) -> int {
    canon_exp((lookup(scopes, e.0)->0).variable, a) * e.1
}

/// What the first `n` entries of one side give to the exponent of `a`.
pub open spec fn side_sum(s: Model, n: int, scopes: TowerModel, a: Seq<char>) -> int
    decreases n,
{
    if n <= 0 {
        0
    } else {
        side_sum(s, n - 1, scopes, a) + term(s[n - 1], scopes, a)
    }
}

/// The first name among the entries from index `from` on that no scope
/// binds.
pub open spec fn first_missing(s: Model, from: int, scopes: TowerModel) -> Option<Seq<char>>
    decreases s.len() - from,
{
    if from < 0 || from >= s.len() {
        None
    } else if lookup(scopes, s[from].0) is None {
        Some(s[from].0)
    } else {
        first_missing(s, from + 1, scopes)
    }
}

/// The first name of a fraction that no scope binds: of the numerator in
/// order, then of the denominator.
pub open spec fn missing(top: Model, bottom: Model, scopes: TowerModel) -> Option<Seq<char>> {
    if first_missing(top, 0, scopes) is Some {
        first_missing(top, 0, scopes)
    } else {
        first_missing(bottom, 0, scopes)
    }
}

/// `x` fits the machine word in either direction.
pub open spec fn in_range(x: int) -> bool {
    -(u32::MAX as int) <= x <= u32::MAX
}

/// One side can be expanded entry by entry: what each name is bound to has
/// an expansion, each entry raised to its power fits, and so does the
/// product of the entries up to each point.
pub open spec fn side_fits(s: Model, scopes: TowerModel) -> bool {
    &&& forall|i: int|
        0 <= i < s.len() ==> has_canon((lookup(scopes, (#[trigger] s[i]).0)->0).variable)
    &&& forall|i: int, a: Seq<char>|
        0 <= i < s.len() ==> in_range(#[trigger] term(s[i], scopes, a))
    &&& forall|n: int, a: Seq<char>|
        0 <= n <= s.len() ==> in_range(#[trigger] side_sum(s, n, scopes, a))
}

/// The signed exponent of `a` in the expansion of the fraction.
pub open spec fn expanded(top: Model, bottom: Model, scopes: TowerModel, a: Seq<char>) -> int {
    side_sum(top, top.len() as int, scopes, a) - side_sum(bottom, bottom.len() as int, scopes, a)
}

/// The whole fraction can be expanded: both sides can, and so can their
/// quotient.
pub open spec fn expansion_fits(top: Model, bottom: Model, scopes: TowerModel) -> bool {
    &&& side_fits(top, scopes)
    &&& side_fits(bottom, scopes)
    &&& forall|a: Seq<char>| in_range(#[trigger] expanded(top, bottom, scopes, a))
}

/// The signed exponents in the expansion of the fraction.
pub open spec fn expanded_fn(top: Model, bottom: Model, scopes: TowerModel) -> spec_fn(
    Seq<char>,
) -> int {
    |a: Seq<char>| expanded(top, bottom, scopes, a)
}

/// Why a unit cannot be expanded from the expansions that the bindings of
/// its names store, if it cannot: a unit that stores its expansion always
/// can; else the first name that no scope binds is reported, and after
/// that a binding without an expansion or an exponent that would not fit.
pub open spec fn expansion_failure(u: UnitView, scopes: TowerModel) -> Option<Cause> {
    if u.cache is Some {
        None
    } else if missing(u.sides.0, u.sides.1, scopes) is Some {
        Some(Cause::NotDeclared(missing(u.sides.0, u.sides.1, scopes)->0))
    } else if !expansion_fits(u.sides.0, u.sides.1, scopes) {
        Some(Cause::Overflow)
    } else {
        None
    }
}

/// The expansion of a unit into primitive units: the stored expansion
/// where there is one; else the reduced fraction in which the exponent of
/// every identifier is the sum, over the names of the unit, of the name's
/// exponent times the identifier's exponent in the expansion of what the
/// name is bound to.
pub open spec fn expansion(u: UnitView, scopes: TowerModel) -> Sides {
    if u.cache is Some {
        u.cache->0
    } else {
        fraction(expanded_fn(u.sides.0, u.sides.1, scopes))
    }
}

/// A unit as it comes out of an expression, with no expansion stored.
pub open spec fn fresh(sides: Sides) -> UnitView {
    UnitView { sides, cache: None }
}

/// What a failure, if any, reads as.
pub open spec fn cause_of(r: Result<(), ErrorKind>) -> Option<Cause> {
    match r {
        Ok(_) => None,
        Err(e) => Some(e@),
    }
}

/// What asking for the expansion of what `name` is bound to leaves, and
/// how it ends. A primitive unit and a unit that stores its expansion are
/// left as they are. Any other bound unit has the bindings of its own
/// names asked first, numerator before denominator, is then expanded from
/// what they store, and stores the result with its binding.
///
/// `fuel` bounds how many bound units are followed one into the next;
/// where it runs out, the names stand for themselves.
pub open spec fn forced(m: TowerModel, name: Seq<char>, fuel: nat) -> (Option<Cause>, TowerModel)
    decreases fuel, 0nat,
{
    match lookup(m, name) {
        None => (Some(Cause::NotDeclared(name)), m),
        Some(b) => match b.variable {
            VariableView::Axiom(_, _) => (None, m),
            VariableView::Unit(u) => if u.cache is Some {
                (None, m)
            } else if fuel == 0 {
                (Some(Cause::Cyclic), m)
            } else {
                let r = forced_sides(m, u.sides, (fuel - 1) as nat);
                if r.0 is Some {
                    r
                } else if expansion_failure(fresh(u.sides), r.1) is Some {
                    (expansion_failure(fresh(u.sides), r.1), r.1)
                } else {
                    (None, stored(r.1, name, expansion(fresh(u.sides), r.1)))
                }
            },
        },
    }
}

/// What asking for the expansions of the names from index `i` on leaves,
/// and how it ends: they are asked in order, and the first failure ends
/// the asking.
pub open spec fn forced_side(m: TowerModel, entries: Model, i: int, fuel: nat) -> (
    Option<Cause>,
    TowerModel,
)
    decreases fuel, entries.len() - i + 1,
{
    if i < 0 || i >= entries.len() {
        (None, m)
    } else {
        let r = forced(m, entries[i].0, fuel);
        if r.0 is Some {
            r
        } else {
            forced_side(r.1, entries, i + 1, fuel)
        }
    }
}

/// What asking for the expansions of all the names of a fraction leaves,
/// and how it ends: the numerator's names first, then the denominator's.
pub open spec fn forced_sides(m: TowerModel, sides: Sides, fuel: nat) -> (
    Option<Cause>,
    TowerModel,
)
    decreases fuel, sides.0.len() + sides.1.len() + 2,
{
    let r = forced_side(m, sides.0, 0, fuel);
    if r.0 is Some {
        r
    } else {
        forced_side(r.1, sides.1, 0, fuel)
    }
}

/// The expansion of a unit into primitive units, and what asking for it
/// leaves in the scopes. A unit that stores its expansion has that one,
/// whatever the scopes are by now. Else the bindings of its names are
/// asked for their expansions, which they store from then on, and the
/// unit is expanded from these.
pub open spec fn simplified(u: UnitView, m: TowerModel) -> (Result<Sides, Cause>, TowerModel) {
    if u.cache is Some {
        (Ok(u.cache->0), m)
    } else {
        let r = forced_sides(m, u.sides, fuel_of(m));
        if r.0 is Some {
            (Err(r.0->0), r.1)
        } else if expansion_failure(fresh(u.sides), r.1) is Some {
            (Err(expansion_failure(fresh(u.sides), r.1)->0), r.1)
        } else {
            (Ok(expansion(fresh(u.sides), r.1)), r.1)
        }
    }
}

/// A unit with `c` as its stored expansion.
pub open spec fn keeping(u: UnitView, c: Sides) -> UnitView {
    UnitView { sides: u.sides, cache: Some(c) }
}

/// How comparing two units ends, and what it leaves of the two units and
/// of the scopes: the first is expanded, then the second, each storing its
/// expansion; they are equal where the expansions are the same fraction.
pub open spec fn compared(a: UnitView, b: UnitView, m: TowerModel) -> (
    Result<bool, Cause>,
    UnitView,
    UnitView,
    TowerModel,
) {
    let first = simplified(a, m);
    match first.0 {
        Err(e) => (Err(e), a, b, first.1),
        Ok(ca) => {
            let second = simplified(b, first.1);
            match second.0 {
                Err(e) => (Err(e), keeping(a, ca), b, second.1),
                Ok(cb) => (Ok(ca == cb), keeping(a, ca), keeping(b, cb), second.1),
            }
        },
    }
}

/// Once a unit has been expanded, it is equal to itself, and asking
/// changes nothing.
pub proof fn lemma_equal_to_itself(a: UnitView, m: TowerModel)
    requires
        simplified(a, m).0 is Ok,
    ensures
        ({
            let c = simplified(a, m).0->Ok_0;
            let after = simplified(a, m).1;
            compared(keeping(a, c), keeping(a, c), after) == (
                Ok::<bool, Cause>(true),
                keeping(a, c),
                keeping(a, c),
                after,
            )
        }),
{
}

/// Once two units have been compared, comparing them the other way round
/// gives the same answer and changes nothing.
pub proof fn lemma_equal_either_way(a: UnitView, b: UnitView, m: TowerModel)
    requires
        compared(a, b, m).0 is Ok,
    ensures
        ({
            let r = compared(a, b, m);
            compared(r.2, r.1, r.3) == (r.0, r.2, r.1, r.3)
        }),
{
}

/// Asking for expansions changes no count of bindings, so that as many
/// bound units may be followed afterwards as before.
pub proof fn lemma_forced_size(m: TowerModel, name: Seq<char>, fuel: nat)
    ensures
        fuel_of(forced(m, name, fuel).1) == fuel_of(m),
        forced(m, name, fuel).1.len() == m.len(),
    decreases fuel, 0nat,
{
    if lookup(m, name) is Some {
        if let VariableView::Unit(u) = (lookup(m, name)->0).variable {
            if u.cache is None && fuel > 0 {
                lemma_forced_sides_size(m, u.sides, (fuel - 1) as nat);
                let r = forced_sides(m, u.sides, (fuel - 1) as nat);
                lemma_stored_size(r.1, name, expansion(fresh(u.sides), r.1));
            }
        }
    }
}

/// Asking for the expansions of a side changes no count of bindings.
pub proof fn lemma_forced_side_size(m: TowerModel, entries: Model, i: int, fuel: nat)
    ensures
        fuel_of(forced_side(m, entries, i, fuel).1) == fuel_of(m),
        forced_side(m, entries, i, fuel).1.len() == m.len(),
    decreases fuel, entries.len() - i + 1,
{
    if 0 <= i < entries.len() {
        lemma_forced_size(m, entries[i].0, fuel);
        let r = forced(m, entries[i].0, fuel);
        if r.0 is None {
            lemma_forced_side_size(r.1, entries, i + 1, fuel);
        }
    }
}

/// Asking for the expansions of a fraction changes no count of bindings.
pub proof fn lemma_forced_sides_size(m: TowerModel, sides: Sides, fuel: nat)
    ensures
        fuel_of(forced_sides(m, sides, fuel).1) == fuel_of(m),
        forced_sides(m, sides, fuel).1.len() == m.len(),
    decreases fuel, sides.0.len() + sides.1.len() + 2,
{
    lemma_forced_side_size(m, sides.0, 0, fuel);
    let r = forced_side(m, sides.0, 0, fuel);
    if r.0 is None {
        lemma_forced_side_size(r.1, sides.1, 0, fuel);
    }
}

/// `k` is bound to a primitive unit whose identifier is `k` itself.
pub open spec fn primitive_here(scopes: TowerModel, k: Seq<char>) -> bool {
    match lookup(scopes, k) {
        Some(b) => match b.variable {
            VariableView::Axiom(ident, _) => ident == k,
            _ => false,
        },
        None => false,
    }
}

/// Every name on either side is bound to the primitive unit of that name.
pub open spec fn names_primitives(c: Sides, scopes: TowerModel) -> bool {
    &&& forall|i: int| 0 <= i < c.0.len() ==> primitive_here(scopes, (#[trigger] c.0[i]).0)
    &&& forall|i: int| 0 <= i < c.1.len() ==> primitive_here(scopes, (#[trigger] c.1[i]).0)
}

proof fn lemma_primitive_side(s: Model, n: int, scopes: TowerModel, a: Seq<char>)
    requires
        valid_model(s),
        0 <= n <= s.len(),
        forall|i: int| 0 <= i < s.len() ==> primitive_here(scopes, (#[trigger] s[i]).0),
    ensures
        side_sum(s, n, scopes, a) == prefix_power(s, n, a),
        0 <= side_sum(s, n, scopes, a) <= u32::MAX,
        first_missing(s, s.len() - n, scopes) is None,
        forall|i: int| 0 <= i < n ==> in_range(#[trigger] term(s[i], scopes, a)),
        forall|i: int|
            0 <= i < s.len() ==> has_canon((lookup(scopes, (#[trigger] s[i]).0)->0).variable),
    decreases n,
{
    lemma_power_positive(s, a);
    assert forall|i: int| 0 <= i < s.len() implies has_canon(
        (lookup(scopes, (#[trigger] s[i]).0)->0).variable,
    ) by {
        assert(primitive_here(scopes, s[i].0));
    }
    if n > 0 {
        lemma_primitive_side(s, n - 1, scopes, a);
        lemma_prefix_power_step(s, n - 1, a);
        lemma_power_at(s, n - 1);
        assert(primitive_here(scopes, s[n - 1].0));
        assert(primitive_here(scopes, s[s.len() - n].0));
        let p = s[n - 1].1;
        assert(term(s[n - 1], scopes, a) == if a == s[n - 1].0 {
            p as int
        } else {
            0
        }) by {
            assert(1 * p == p);
            assert(0 * p == 0);
        }
        assert forall|i: int| 0 <= i < n implies in_range(#[trigger] term(s[i], scopes, a)) by {
            if i == n - 1 {
            }
        }
    }
}

/// Names bound to primitive units have nothing to be asked for.
proof fn lemma_forced_primitives(m: TowerModel, entries: Model, i: int, fuel: nat)
    requires
        0 <= i <= entries.len(),
        forall|j: int| 0 <= j < entries.len() ==> primitive_here(m, (#[trigger] entries[j]).0),
    ensures
        forced_side(m, entries, i, fuel) == (None::<Cause>, m),
    decreases entries.len() - i,
{
    reveal_with_fuel(forced, 2);
    reveal_with_fuel(forced_side, 2);
    if i < entries.len() {
        assert(primitive_here(m, entries[i].0));
        assert(forced(m, entries[i].0, fuel) == (None::<Cause>, m));
        lemma_forced_primitives(m, entries, i + 1, fuel);
    }
}

/// A reduced fraction whose names are all bound to the primitive units of
/// those names is its own expansion: expanding what has been expanded
/// changes nothing, in the unit or in the scopes.
pub proof fn lemma_expansion_is_fixed(c: Sides, scopes: TowerModel)
    requires
        reduced_sides(c),
        names_primitives(c, scopes),
    ensures
        expansion_failure(fresh(c), scopes) is None,
        expansion(fresh(c), scopes) == c,
        simplified(fresh(c), scopes) == (Ok::<Sides, Cause>(c), scopes),
{
    lemma_forced_primitives(scopes, c.0, 0, fuel_of(scopes));
    lemma_forced_primitives(scopes, c.1, 0, fuel_of(scopes));
    let f = expanded_fn(c.0, c.1, scopes);
    lemma_primitive_side(c.0, c.0.len() as int, scopes, Seq::<char>::empty());
    lemma_primitive_side(c.1, c.1.len() as int, scopes, Seq::<char>::empty());
    assert forall|i: int, a: Seq<char>| 0 <= i < c.0.len() implies in_range(
        #[trigger] term(c.0[i], scopes, a),
    ) by {
        lemma_primitive_side(c.0, c.0.len() as int, scopes, a);
    }
    assert forall|n: int, a: Seq<char>| 0 <= n <= c.0.len() implies in_range(
        #[trigger] side_sum(c.0, n, scopes, a),
    ) by {
        lemma_primitive_side(c.0, n, scopes, a);
    }
    assert forall|i: int, a: Seq<char>| 0 <= i < c.1.len() implies in_range(
        #[trigger] term(c.1[i], scopes, a),
    ) by {
        lemma_primitive_side(c.1, c.1.len() as int, scopes, a);
    }
    assert forall|n: int, a: Seq<char>| 0 <= n <= c.1.len() implies in_range(
        #[trigger] side_sum(c.1, n, scopes, a),
    ) by {
        lemma_primitive_side(c.1, n, scopes, a);
    }
    assert forall|a: Seq<char>| #[trigger] expanded(c.0, c.1, scopes, a) == net(c.0, c.1, a) by {
        lemma_primitive_side(c.0, c.0.len() as int, scopes, a);
        lemma_primitive_side(c.1, c.1.len() as int, scopes, a);
        if c.0.len() > 0 {
            lemma_prefix_power_step(c.0, 0, a);
        } else {
            assert(!crate::exponent::has_key(c.0, a));
        }
        if c.1.len() > 0 {
            lemma_prefix_power_step(c.1, 0, a);
        } else {
            assert(!crate::exponent::has_key(c.1, a));
        }
    }
    assert forall|a: Seq<char>| in_range(#[trigger] expanded(c.0, c.1, scopes, a)) by {
        assert(expanded(c.0, c.1, scopes, a) == net(c.0, c.1, a));
        lemma_power_positive(c.0, a);
        lemma_power_positive(c.1, a);
    }
    assert forall|a: Seq<char>| #[trigger] net(c.0, c.1, a) == f(a) by {
        assert(expanded(c.0, c.1, scopes, a) == net(c.0, c.1, a));
    }
    lemma_fraction_unique(c, c, f);
}

/// The dimensionless unit expands to itself in any scopes: a unit divided
/// by itself has nothing left to expand.
pub proof fn lemma_expand_dimensionless(scopes: TowerModel)
    ensures
        expansion_failure(
            fresh((Seq::<(Seq<char>, nat)>::empty(), Seq::<(Seq<char>, nat)>::empty())),
            scopes,
        ) is None,
        expansion(
            fresh((Seq::<(Seq<char>, nat)>::empty(), Seq::<(Seq<char>, nat)>::empty())),
            scopes,
        ) == (Seq::<(Seq<char>, nat)>::empty(), Seq::<(Seq<char>, nat)>::empty()),
        simplified(
            fresh((Seq::<(Seq<char>, nat)>::empty(), Seq::<(Seq<char>, nat)>::empty())),
            scopes,
        ) == (
            Ok::<Sides, Cause>(
                (Seq::<(Seq<char>, nat)>::empty(), Seq::<(Seq<char>, nat)>::empty()),
            ),
            scopes,
        ),
{
    let c = (Seq::<(Seq<char>, nat)>::empty(), Seq::<(Seq<char>, nat)>::empty());
    assert forall|k: Seq<char>|
        #![trigger power_in(c.0, k)]
        #![trigger power_in(c.1, k)]
        power_in(c.0, k) == 0 || power_in(c.1, k) == 0 by {
        assert(!crate::exponent::has_key(c.0, k));
    }
    lemma_expansion_is_fixed(c, scopes);
}

/// A unit divided by itself has nothing on either side, and expands to
/// the dimensionless unit in any scopes.
pub proof fn lemma_self_quotient(unit: &Unit, quotient: &Unit, scopes: TowerModel)
    requires
        unit.reduced(),
        quotient.reduced(),
        forall|k: Seq<char>| quotient.exp(k) == unit.exp(k) - unit.exp(k),
    ensures
        quotient.dimensionless(),
        simplified(fresh(quotient.sides()), scopes) == (
            Ok::<Sides, Cause>(quotient.sides()),
            scopes,
        ),
{
    assert forall|k: Seq<char>|
        power_in(quotient.top_view(), k) == 0 && power_in(quotient.bottom_view(), k) == 0 by {
        assert(quotient.exp(k) == unit.exp(k) - unit.exp(k));
        quotient.lemma_exp_bounded(k);
    }
    crate::exponent::lemma_no_power(quotient.top_view());
    crate::exponent::lemma_no_power(quotient.bottom_view());
    assert(quotient.top_view() =~= Seq::<(Seq<char>, nat)>::empty());
    assert(quotient.bottom_view() =~= Seq::<(Seq<char>, nat)>::empty());
    lemma_expand_dimensionless(scopes);
}

/// Once every entry before `from` is known to be bound, the search for a
/// missing name can start at `from`.
proof fn lemma_first_missing_from(s: Model, from: int, scopes: TowerModel)
    requires
        0 <= from <= s.len(),
        forall|j: int| 0 <= j < from ==> lookup(scopes, (#[trigger] s[j]).0) is Some,
    ensures
        first_missing(s, 0, scopes) == first_missing(s, from, scopes),
    decreases from,
{
    if from > 0 {
        lemma_first_missing_from(s, from - 1, scopes);
    }
}

/// Where no name is missing, every entry is bound.
pub proof fn lemma_none_missing(s: Model, from: int, scopes: TowerModel, i: int)
    requires
        0 <= from <= i < s.len(),
        first_missing(s, from, scopes) is None,
    ensures
        lookup(scopes, s[i].0) is Some,
    decreases i - from,
{
    if from < i {
        lemma_none_missing(s, from + 1, scopes, i);
    }
}

impl Unit {
    /// The first name of this unit that no scope binds, numerator first.
    pub fn first_undeclared(&self, scopes: &TowerScope) -> (r: Option<String>)
        requires
            self.wf(),
        ensures
            r is Some <==> missing(self.top_view(), self.bottom_view(), scopes@) is Some,
            r matches Some(n) ==> n@ == missing(self.top_view(), self.bottom_view(), scopes@)->0,
    {
        let top = first_unbound(self.top(), scopes);
        if top.is_some() {
            return top;
        }
        first_unbound(self.bottom(), scopes)
    }

    /// Expands this unit from the expansions that the bindings of its names
    /// store: every name is replaced by the expansion of what it is bound
    /// to, raised to the name's power; the numerator's names are multiplied
    /// up, then the denominator's, and the first product is divided by the
    /// second.
    pub fn expand_in(&self, scopes: &TowerScope) -> (r: Result<Unit, ErrorKind>)
        requires
            self.wf(),
            scopes.wf(),
        ensures
            match r {
                Ok(u) => {
                    &&& expansion_failure(fresh(self.sides()), scopes@) is None
                    &&& u.wf()
                    &&& u.cached() is None
                    &&& u.sides() == expansion(fresh(self.sides()), scopes@)
                    &&& forall|a: Seq<char>|
                        u.exp(a) == expanded(self.top_view(), self.bottom_view(), scopes@, a)
                },
                Err(e) => expansion_failure(fresh(self.sides()), scopes@) == Some(e@),
            },
    {
        if let Some(name) = self.first_undeclared(scopes) {
            return Err(ErrorKind::VariableNotDeclared(name));
        }
        let ghost top = self.top_view();
        let ghost bottom = self.bottom_view();
        proof {
            assert forall|i: int| 0 <= i < top.len() implies lookup(scopes@, (#[trigger] top[i]).0)
                is Some by {
                lemma_none_missing(top, 0, scopes@, i);
            }
            assert forall|i: int| 0 <= i < bottom.len() implies lookup(
                scopes@,
                (#[trigger] bottom[i]).0,
            ) is Some by {
                lemma_none_missing(bottom, 0, scopes@, i);
            }
        }
        let above = match side_product(self.top(), scopes) {
            Some(u) => u,
            None => {
                return Err(ErrorKind::ExponentOverflow);
            },
        };
        let below = match side_product(self.bottom(), scopes) {
            Some(u) => u,
            None => {
                return Err(ErrorKind::ExponentOverflow);
            },
        };
        proof {
            if above.quotient_fits(&below) {
                assert forall|a: Seq<char>|
                    in_range(#[trigger] expanded(top, bottom, scopes@, a)) by {
                    assert(in_range(above.exp(a) - below.exp(a)));
                }
            }
            if expansion_fits(top, bottom, scopes@) {
                assert forall|a: Seq<char>|
                    -(u32::MAX as int) <= #[trigger] above.exp(a) - below.exp(a)
                        <= u32::MAX by {
                    assert(in_range(expanded(top, bottom, scopes@, a)));
                }
            }
        }
        match above.checked_divide(below) {
            Some(u) => {
                proof {
                    let f = expanded_fn(top, bottom, scopes@);
                    assert forall|a: Seq<char>| #[trigger]
                        net(u.sides().0, u.sides().1, a) == f(a) by {
                        assert(u.exp(a) == above.exp(a) - below.exp(a));
                    }
                    lemma_fraction_unique(u.sides(), u.sides(), f);
                }
                Ok(u)
            },
            None => Err(ErrorKind::ExponentOverflow),
        }
    }

    /// Expands this unit into primitive units. The bindings of its names
    /// are asked for their expansions, which they take in the scopes as
    /// they stand and store from then on; the unit is expanded from these.
    ///
    /// The expansion is stored with the unit the first time and handed out
    /// from the store from then on, whatever the scopes are by then.
    pub fn simplify(&mut self, scopes: &mut TowerScope) -> (r: Result<Unit, ErrorKind>)
        requires
            old(self).wf(),
            old(scopes).wf(),
        ensures
            final(self).wf(),
            final(scopes).wf(),
            final(self).sides() == old(self).sides(),
            final(scopes)@ == simplified(old(self)@, old(scopes)@).1,
            final(scopes)@.len() == old(scopes)@.len(),
            fuel_of(final(scopes)@) == fuel_of(old(scopes)@),
            match r {
                Ok(u) => {
                    &&& simplified(old(self)@, old(scopes)@).0 == Ok::<Sides, Cause>(u.sides())
                    &&& u.wf()
                    &&& u.cached() is None
                    &&& final(self)@ == keeping(old(self)@, u.sides())
                },
                Err(e) => {
                    &&& simplified(old(self)@, old(scopes)@).0 == Err::<Sides, Cause>(e@)
                    &&& final(self)@ == old(self)@
                },
            },
    {
        if let Some(c) = self.simplified() {
            let u = c.duplicate();
            return Ok(u);
        }
        let fuel = scopes.fuel();
        match scopes.force_sides(self, fuel) {
            Ok(_) => {},
            Err(e) => {
                return Err(e);
            },
        }
        match self.expand_in(scopes) {
            Ok(u) => {
                let kept = u.duplicate();
                self.remember(kept);
                Ok(u)
            },
            Err(e) => Err(e),
        }
    }

    /// Whether two units denote the same dimension: both are expanded, the
    /// first before the second, and the expansions are compared entry by
    /// entry. Each unit keeps its expansion.
    pub fn eq(&mut self, other: &mut Unit, scopes: &mut TowerScope) -> (r: Result<
        bool,
        ErrorKind,
    >)
        requires
            old(self).wf(),
            old(other).wf(),
            old(scopes).wf(),
        ensures
            final(self).wf(),
            final(other).wf(),
            final(scopes).wf(),
            final(self).sides() == old(self).sides(),
            final(other).sides() == old(other).sides(),
            final(self)@ == compared(old(self)@, old(other)@, old(scopes)@).1,
            final(other)@ == compared(old(self)@, old(other)@, old(scopes)@).2,
            final(scopes)@ == compared(old(self)@, old(other)@, old(scopes)@).3,
            final(scopes)@.len() == old(scopes)@.len(),
            fuel_of(final(scopes)@) == fuel_of(old(scopes)@),
            match r {
                Ok(b) => compared(old(self)@, old(other)@, old(scopes)@).0 == Ok::<bool, Cause>(
                    b,
                ),
                Err(e) => compared(old(self)@, old(other)@, old(scopes)@).0 == Err::<
                    bool,
                    Cause,
                >(e@),
            },
    {
        let unit1 = match self.simplify(scopes) {
            Ok(u) => u,
            Err(e) => {
                return Err(e);
            },
        };
        let unit2 = match other.simplify(scopes) {
            Ok(u) => u,
            Err(e) => {
                return Err(e);
            },
        };
        Ok(unit1.same(&unit2))
    }
}

impl TowerScope {
    /// Asks for the expansion of what `name` is bound to, so that the
    /// binding stores it: see `forced`.
    pub fn force(&mut self, name: &str, fuel: usize) -> (r: Result<(), ErrorKind>)
        requires
            old(self).wf(),
        ensures
            final(self).wf(),
            forced(old(self)@, name@, fuel as nat) == (cause_of(r), final(self)@),
            final(self)@.len() == old(self)@.len(),
            fuel_of(final(self)@) == fuel_of(old(self)@),
        decreases fuel, 0nat,
    {
        proof {
            lemma_forced_size(self@, name@, fuel as nat);
        }
        let unit = match self.get_existing(name) {
            None => {
                return Err(ErrorKind::VariableNotDeclared(name.to_owned()));
            },
            Some(bound) => match bound.item() {
                Variable::Axiom(_) => {
                    return Ok(());
                },
                Variable::Unit(unit) => {
                    if unit.simplified().is_some() {
                        return Ok(());
                    }
                    unit.duplicate()
                },
            },
        };
        if fuel == 0 {
            return Err(ErrorKind::CyclicDefinition);
        }
        match self.force_sides(&unit, fuel - 1) {
            Ok(_) => {},
            Err(e) => {
                return Err(e);
            },
        }
        match unit.expand_in(self) {
            Ok(canon) => {
                self.store(name, canon);
                Ok(())
            },
            Err(e) => Err(e),
        }
    }

    /// Asks for the expansions of what the names of one side are bound to,
    /// in order.
    fn force_side(&mut self, side: &ExponentMap, fuel: usize) -> (r: Result<(), ErrorKind>)
        requires
            old(self).wf(),
            side.wf(),
        ensures
            final(self).wf(),
            forced_side(old(self)@, side@, 0, fuel as nat) == (cause_of(r), final(self)@),
            final(self)@.len() == old(self)@.len(),
            fuel_of(final(self)@) == fuel_of(old(self)@),
        decreases fuel, 1nat,
    {
        proof {
            lemma_forced_side_size(self@, side@, 0, fuel as nat);
        }
        let mut i: usize = 0;
        while i < side.len()
            invariant
                self.wf(),
                side.wf(),
                i <= side@.len(),
                self@.len() == old(self)@.len(),
                fuel_of(self@) == fuel_of(old(self)@),
                forced_side(old(self)@, side@, 0, fuel as nat) == forced_side(
                    self@,
                    side@,
                    i as int,
                    fuel as nat,
                ),
            decreases side@.len() - i,
        {
            match self.force(side.name_at(i).as_str(), fuel) {
                Ok(_) => {},
                Err(e) => {
                    return Err(e);
                },
            }
            i += 1;
        }
        Ok(())
    }

    /// Asks for the expansions of what the names of a unit are bound to:
    /// the numerator's names first, then the denominator's.
    pub fn force_sides(&mut self, unit: &Unit, fuel: usize) -> (r: Result<(), ErrorKind>)
        requires
            old(self).wf(),
            unit.wf(),
        ensures
            final(self).wf(),
            forced_sides(old(self)@, unit.sides(), fuel as nat) == (cause_of(r), final(self)@),
            final(self)@.len() == old(self)@.len(),
            fuel_of(final(self)@) == fuel_of(old(self)@),
        decreases fuel, 2nat,
    {
        proof {
            lemma_forced_sides_size(self@, unit.sides(), fuel as nat);
        }
        match self.force_side(unit.top(), fuel) {
            Ok(_) => {},
            Err(e) => {
                return Err(e);
            },
        }
        self.force_side(unit.bottom(), fuel)
    }
}

/// The first name of `side` that no scope binds.
fn first_unbound(side: &ExponentMap, scopes: &TowerScope) -> (r: Option<String>)
    requires
        side.wf(),
    ensures
        r is Some <==> first_missing(side@, 0, scopes@) is Some,
        r matches Some(n) ==> n@ == first_missing(side@, 0, scopes@)->0,
{
    let mut i: usize = 0;
    while i < side.len()
        invariant
            side.wf(),
            i <= side@.len(),
            forall|j: int| 0 <= j < i ==> lookup(scopes@, (#[trigger] side@[j]).0) is Some,
        decreases side@.len() - i,
    {
        let name = side.name_at(i);
        if !scopes.contains(name.as_str()) {
            proof {
                lemma_first_missing_from(side@, i as int, scopes@);
            }
            return Some(name.clone());
        }
        i += 1;
    }
    proof {
        lemma_first_missing_from(side@, side@.len() as int, scopes@);
    }
    None
}

/// The product of the expansions of the entries of one side, each raised
/// to the entry's power.
fn side_product(side: &ExponentMap, scopes: &TowerScope) -> (r: Option<Unit>)
    requires
        side.wf(),
        scopes.wf(),
        forall|i: int| 0 <= i < side@.len() ==> lookup(scopes@, (#[trigger] side@[i]).0) is Some,
    ensures
        r is Some <==> side_fits(side@, scopes@),
        r matches Some(u) ==> {
            &&& u.wf()
            &&& u.cached() is None
            &&& forall|a: Seq<char>| u.exp(a) == side_sum(side@, side@.len() as int, scopes@, a)
        },
{
    let mut acc = Unit::default();
    let mut i: usize = 0;
    proof {
        assert forall|a: Seq<char>| acc.exp(a) == side_sum(side@, 0, scopes@, a) by {
            assert(!crate::exponent::has_key(acc.top_view(), a));
            assert(!crate::exponent::has_key(acc.bottom_view(), a));
        }
    }
    while i < side.len()
        invariant
            side.wf(),
            scopes.wf(),
            i <= side@.len(),
            acc.wf(),
            acc.cached() is None,
            forall|j: int| 0 <= j < side@.len() ==> lookup(scopes@, (#[trigger] side@[j]).0) is Some,
            forall|j: int|
                0 <= j < i ==> has_canon((lookup(scopes@, (#[trigger] side@[j]).0)->0).variable),
            forall|a: Seq<char>| acc.exp(a) == side_sum(side@, i as int, scopes@, a),
            forall|j: int, a: Seq<char>|
                0 <= j < i ==> in_range(#[trigger] term(side@[j], scopes@, a)),
            forall|n: int, a: Seq<char>|
                0 <= n <= i ==> in_range(#[trigger] side_sum(side@, n, scopes@, a)),
        decreases side@.len() - i,
    {
        let name = side.name_at(i);
        let power = side.power_at(i);
        let ghost entry = side@[i as int];
        proof {
            assert(lookup(scopes@, entry.0) is Some);
        }
        let bound = scopes.get_existing(name.as_str()).unwrap();
        let canon = match bound.item().simplify() {
            Some(c) => c,
            None => {
                assert(!has_canon((lookup(scopes@, side@[i as int].0)->0).variable));
                return None;
            },
        };
        proof {
            assert forall|a: Seq<char>| #[trigger] canon.exp(a) * power == term(entry, scopes@, a) by {}
        }
        let raised = match canon.power(power) {
            Some(u) => u,
            None => {
                proof {
                    let a = choose|a: Seq<char>|
                        !(-(u32::MAX as int) <= #[trigger] canon.exp(a) * power <= u32::MAX);
                    assert(!in_range(term(side@[i as int], scopes@, a)));
                }
                return None;
            },
        };
        proof {
            assert forall|a: Seq<char>|
                #[trigger] acc.exp(a) + raised.exp(a) == side_sum(
                    side@,
                    i as int + 1,
                    scopes@,
                    a,
                ) by {
                assert(raised.exp(a) == canon.exp(a) * power);
                assert(acc.exp(a) == side_sum(side@, i as int, scopes@, a));
            }
        }
        let ghost before = acc;
        acc = match acc.checked_multiply(raised) {
            Some(u) => u,
            None => {
                proof {
                    let a = choose|a: Seq<char>|
                        !(-(u32::MAX as int) <= #[trigger] before.exp(a) + raised.exp(a)
                            <= u32::MAX);
                    assert(!in_range(side_sum(side@, i as int + 1, scopes@, a)));
                }
                return None;
            },
        };
        proof {
            assert forall|a: Seq<char>|
                acc.exp(a) == side_sum(side@, i as int + 1, scopes@, a) by {
                assert(acc.exp(a) == before.exp(a) + raised.exp(a));
            }
            assert forall|j: int, a: Seq<char>| 0 <= j < i + 1 implies in_range(
                #[trigger] term(side@[j], scopes@, a),
            ) by {
                if j == i {
                    raised.lemma_exp_bounded(a);
                    assert(raised.exp(a) == canon.exp(a) * power);
                }
            }
            assert forall|n: int, a: Seq<char>| 0 <= n <= i + 1 implies in_range(
                #[trigger] side_sum(side@, n, scopes@, a),
            ) by {
                if n == i + 1 {
                    acc.lemma_exp_bounded(a);
                }
            }
        }
        i += 1;
    }
    Some(acc)
}

} // verus!
