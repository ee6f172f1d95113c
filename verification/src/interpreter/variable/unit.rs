//! Derived units: a fraction of two exponent maps that share no identifier.

use crate::exponent::{
    disjoint, lemma_model_ext, lemma_power_positive, merge, merge_fits, net, power_in,
    valid_model, ExponentMap, Model, Sides,
};
use vstd::prelude::*;

pub mod expand;
pub mod render;
pub mod walk;

verus! {

/// A dimension written as a fraction of powers of identifiers.
///
/// The numerator and the denominator never name the same identifier: what
/// stands on both sides is cancelled as soon as a unit is built or combined.
/// `simplified` holds the expansion into primitive units once it has been
/// computed; it is written once and read from then on.
#[derive(Debug)]
pub struct Unit {
    top: ExponentMap,
    bottom: ExponentMap,
    simplified: Option<Box<Unit>>,
}

/// What a unit says: its two sides, and those of its stored expansion.
pub struct UnitView {
    pub sides: Sides,
    pub cache: Option<Sides>,
}

impl View for Unit {
    type V = UnitView;

    open spec fn view(&self) -> UnitView {
        UnitView {
            sides: self.sides(),
            cache: match self.cached() {
                Some(c) => Some(c.sides()),
                None => None,
            },
        }
    }
}

impl Unit {
    /// Numerator and denominator.
    pub open spec fn sides(&self) -> Sides {
        (self.top_view(), self.bottom_view())
    }

    /// The entries of the numerator.
    pub closed spec fn top_view(&self) -> Model {
        self.top@
    }

    /// The entries of the denominator.
    pub closed spec fn bottom_view(&self) -> Model {
        self.bottom@
    }

    /// The stored expansion, where there is one.
    pub closed spec fn cached(&self) -> Option<Unit> {
        match self.simplified {
            Some(b) => Some(*b),
            None => None,
        }
    }

    /// The representation invariant of the two sides taken alone.
    pub closed spec fn sides_aligned(&self) -> bool {
        self.top.aligned() && self.bottom.aligned()
    }

    /// Both sides are valid and share no identifier.
    pub open spec fn reduced(&self) -> bool {
        &&& self.sides_aligned()
        &&& valid_model(self.top_view())
        &&& valid_model(self.bottom_view())
        &&& disjoint(self.top_view(), self.bottom_view())
    }

    /// The unit is reduced, and so is its stored expansion, which itself
    /// stores none.
    pub open spec fn wf(&self) -> bool {
        &&& self.reduced()
        &&& match self.cached() {
            Some(c) => c.reduced() && c.cached() is None,
            None => true,
        }
    }

    /// The signed exponent of `k`: positive in the numerator, negative in
    /// the denominator, zero where `k` does not occur.
    pub open spec fn exp(&self, k: Seq<char>) -> int {
        net(self.top_view(), self.bottom_view(), k)
    }

    /// The unit has nothing on either side.
    pub open spec fn dimensionless(&self) -> bool {
        self.top_view().len() == 0 && self.bottom_view().len() == 0
    }

    /// A dimensionless unit gives every identifier the exponent zero.
    pub proof fn lemma_dimensionless(&self, k: Seq<char>)
        requires
            self.dimensionless(),
        ensures
            self.exp(k) == 0,
            power_in(self.top_view(), k) == 0,
            power_in(self.bottom_view(), k) == 0,
    {
        assert(!crate::exponent::has_key(self.top_view(), k));
        assert(!crate::exponent::has_key(self.bottom_view(), k));
    }

    /// Both units have the same numerator and the same denominator.
    pub open spec fn same_sides(&self, other: &Unit) -> bool {
        self.top_view() == other.top_view() && self.bottom_view() == other.bottom_view()
    }

    /// The exponents of the product of two units fit the machine word.
    pub open spec fn product_fits(&self, rhs: &Unit) -> bool {
        forall|k: Seq<char>|
            -(u32::MAX as int) <= #[trigger] self.exp(k) + rhs.exp(k) <= u32::MAX
    }

    /// The exponents of the quotient of two units fit the machine word.
    pub open spec fn quotient_fits(&self, rhs: &Unit) -> bool {
        forall|k: Seq<char>|
            -(u32::MAX as int) <= #[trigger] self.exp(k) - rhs.exp(k) <= u32::MAX
    }

    /// The exponents of the unit raised to `power` fit the machine word.
    pub open spec fn power_fits(&self, power: u32) -> bool {
        forall|k: Seq<char>|
            -(u32::MAX as int) <= #[trigger] self.exp(k) * power <= u32::MAX
    }

    /// Two reduced units with the same signed exponents have the same sides.
    pub proof fn lemma_same_exponents(&self, other: &Unit)
        requires
            self.reduced(),
            other.reduced(),
            forall|k: Seq<char>| self.exp(k) == other.exp(k),
        ensures
            self.same_sides(other),
    {
        assert forall|k: Seq<char>|
            power_in(self.top_view(), k) == power_in(other.top_view(), k) && power_in(
                self.bottom_view(),
                k,
            ) == power_in(other.bottom_view(), k) by {
            assert(self.exp(k) == other.exp(k));
            assert(power_in(self.top_view(), k) == 0 || power_in(self.bottom_view(), k) == 0);
            assert(power_in(other.top_view(), k) == 0 || power_in(other.bottom_view(), k) == 0);
        }
        lemma_model_ext(self.top_view(), other.top_view());
        lemma_model_ext(self.bottom_view(), other.bottom_view());
    }

    /// Every signed exponent of a reduced unit fits the machine word.
    pub proof fn lemma_exp_bounded(&self, k: Seq<char>)
        requires
            self.reduced(),
        ensures
            -(u32::MAX as int) <= self.exp(k) <= u32::MAX,
            self.exp(k) > 0 ==> power_in(self.top_view(), k) == self.exp(k) && power_in(
                self.bottom_view(),
                k,
            ) == 0,
            self.exp(k) < 0 ==> power_in(self.bottom_view(), k) == -self.exp(k) && power_in(
                self.top_view(),
                k,
            ) == 0,
            self.exp(k) == 0 ==> power_in(self.top_view(), k) == 0 && power_in(
                self.bottom_view(),
                k,
            ) == 0,
    {
        lemma_power_positive(self.top_view(), k);
        lemma_power_positive(self.bottom_view(), k);
        assert(power_in(self.top_view(), k) == 0 || power_in(self.bottom_view(), k) == 0);
    }

    /// Builds the unit `top / bottom`, cancelling what stands on both sides.
    pub fn new(top: ExponentMap, bottom: ExponentMap) -> (r: Unit)
        requires
            top.wf(),
            bottom.wf(),
        ensures
            r.wf(),
            r.cached() is None,
            disjoint(r.top_view(), r.bottom_view()),
            forall|k: Seq<char>| r.exp(k) == top.power_of(k) - bottom.power_of(k),
    {
        let none_top = ExponentMap::new();
        let none_bottom = ExponentMap::new();
        proof {
            assert forall|k: Seq<char>|
                #![trigger power_in(top@, k)]
                #![trigger power_in(bottom@, k)]
                {
                    &&& net(none_top@, none_bottom@, k) + power_in(top@, k) <= u32::MAX
                    &&& net(none_top@, none_bottom@, k) + power_in(top@, k) - power_in(bottom@, k)
                        >= -(u32::MAX as int)
                } by {
                lemma_power_positive(top@, k);
                lemma_power_positive(bottom@, k);
            }
        }
        let sides = merge(none_top, none_bottom, &top, &bottom);
        let (t, b) = sides.unwrap();
        Unit { top: t, bottom: b, simplified: None }
    }

    /// The numerator.
    pub fn top(&self) -> (r: &ExponentMap)
        requires
            self.wf(),
        ensures
            r.wf(),
            r@ == self.top_view(),
    {
        &self.top
    }

    /// The denominator.
    pub fn bottom(&self) -> (r: &ExponentMap)
        requires
            self.wf(),
        ensures
            r.wf(),
            r@ == self.bottom_view(),
    {
        &self.bottom
    }

    /// The stored expansion, where it has been computed.
    pub fn simplified(&self) -> (r: Option<&Unit>)
        requires
            self.wf(),
        ensures
            r is Some <==> self.cached() is Some,
            r matches Some(c) ==> *c == self.cached()->0 && c.wf() && c.cached() is None,
    {
        match &self.simplified {
            Some(c) => Some(&**c),
            None => None,
        }
    }

    /// Stores `canon` as the expansion of this unit.
    pub(crate) fn remember(&mut self, canon: Unit)
        requires
            old(self).reduced(),
            canon.reduced(),
            canon.cached() is None,
        ensures
            final(self).wf(),
            final(self).cached() == Some(canon),
            final(self).same_sides(old(self)),
    {
        self.simplified = Some(Box::new(canon));
    }

    /// Whether both units have the same numerator and denominator.
    pub fn same(&self, other: &Unit) -> (b: bool)
        requires
            self.wf(),
            other.wf(),
        ensures
            b == self.same_sides(other),
            b == (forall|k: Seq<char>| self.exp(k) == other.exp(k)),
    {
        proof {
            if forall|k: Seq<char>| self.exp(k) == other.exp(k) {
                self.lemma_same_exponents(other);
            }
        }
        self.top.same(&other.top) && self.bottom.same(&other.bottom)
    }

    /// A copy of this unit, with its stored expansion.
    pub fn duplicate(&self) -> (r: Unit)
        requires
            self.wf(),
        ensures
            r.wf(),
            r.same_sides(self),
            r.cached() is Some <==> self.cached() is Some,
            r.cached() matches Some(c) ==> c.same_sides(&self.cached()->0),
    {
        let simplified = match &self.simplified {
            Some(c) => Some(
                Box::new(
                    Unit { top: c.top.duplicate(), bottom: c.bottom.duplicate(), simplified: None },
                ),
            ),
            None => None,
        };
        Unit { top: self.top.duplicate(), bottom: self.bottom.duplicate(), simplified }
    }

    /// The unit turned upside down: numerator and denominator change places.
    pub fn reciprocal(self) -> (r: Unit)
        requires
            self.wf(),
        ensures
            r.wf(),
            r.cached() is None,
            r.top_view() == self.bottom_view(),
            r.bottom_view() == self.top_view(),
            forall|k: Seq<char>| r.exp(k) == -self.exp(k),
    {
        Unit { top: self.bottom, bottom: self.top, simplified: None }
    }

    /// The product of two units, or `None` where one of its exponents would
    /// leave the machine word. The product stores no expansion.
    pub fn checked_multiply(self, rhs: Unit) -> (r: Option<Unit>)
        requires
            self.wf(),
            rhs.wf(),
        ensures
            r is Some <==> self.product_fits(&rhs),
            r matches Some(u) ==> {
                &&& u.wf()
                &&& u.cached() is None
                &&& disjoint(u.top_view(), u.bottom_view())
                &&& forall|k: Seq<char>| u.exp(k) == self.exp(k) + rhs.exp(k)
            },
            rhs.dimensionless() ==> r is Some && (r->0).sides() == self.sides(),
            self.dimensionless() ==> r is Some && (r->0).sides() == rhs.sides(),
    {
        proof {
            let a = self.top_view();
            let b = self.bottom_view();
            let c = rhs.top_view();
            let d = rhs.bottom_view();
            if merge_fits(a, b, c, d) {
                assert forall|k: Seq<char>|
                    -(u32::MAX as int) <= #[trigger] self.exp(k) + rhs.exp(k) <= u32::MAX by {
                    rhs.lemma_exp_bounded(k);
                    self.lemma_exp_bounded(k);
                    assert(net(a, b, k) + power_in(c, k) <= u32::MAX);
                    assert(net(a, b, k) + power_in(c, k) - power_in(d, k) >= -(u32::MAX as int));
                }
            }
            if self.product_fits(&rhs) {
                assert forall|k: Seq<char>|
                    #![trigger power_in(c, k)]
                    #![trigger power_in(d, k)]
                    {
                        &&& net(a, b, k) + power_in(c, k) <= u32::MAX
                        &&& net(a, b, k) + power_in(c, k) - power_in(d, k) >= -(u32::MAX as int)
                    } by {
                    rhs.lemma_exp_bounded(k);
                    self.lemma_exp_bounded(k);
                    assert(-(u32::MAX as int) <= self.exp(k) + rhs.exp(k) <= u32::MAX);
                }
            }
        }
        proof {
            if rhs.dimensionless() {
                assert forall|k: Seq<char>|
                    -(u32::MAX as int) <= #[trigger] self.exp(k) + rhs.exp(k) <= u32::MAX by {
                    rhs.lemma_dimensionless(k);
                    self.lemma_exp_bounded(k);
                }
            }
            if self.dimensionless() {
                assert forall|k: Seq<char>|
                    -(u32::MAX as int) <= #[trigger] self.exp(k) + rhs.exp(k) <= u32::MAX by {
                    self.lemma_dimensionless(k);
                    rhs.lemma_exp_bounded(k);
                }
            }
        }
        let ghost left = self;
        match merge(self.top, self.bottom, &rhs.top, &rhs.bottom) {
            Some((t, b)) => {
                let u = Unit { top: t, bottom: b, simplified: None };
                proof {
                    if rhs.dimensionless() {
                        assert forall|k: Seq<char>| u.exp(k) == left.exp(k) by {
                            rhs.lemma_dimensionless(k);
                        }
                        u.lemma_same_exponents(&left);
                    }
                    if left.dimensionless() {
                        assert forall|k: Seq<char>| u.exp(k) == rhs.exp(k) by {
                            left.lemma_dimensionless(k);
                        }
                        u.lemma_same_exponents(&rhs);
                    }
                }
                Some(u)
            },
            None => None,
        }
    }

    /// The product of two units. Nothing is kept of either operand's stored
    /// expansion.
    pub fn multiply(self, rhs: Unit) -> (r: Unit)
        requires
            self.wf(),
            rhs.wf(),
            self.product_fits(&rhs),
        ensures
            r.wf(),
            r.cached() is None,
            disjoint(r.top_view(), r.bottom_view()),
            forall|k: Seq<char>| r.exp(k) == self.exp(k) + rhs.exp(k),
            rhs.dimensionless() ==> r.sides() == self.sides(),
            self.dimensionless() ==> r.sides() == rhs.sides(),
    {
        self.checked_multiply(rhs).unwrap()
    }

    /// The quotient of two units, or `None` where one of its exponents would
    /// leave the machine word.
    pub fn checked_divide(self, rhs: Unit) -> (r: Option<Unit>)
        requires
            self.wf(),
            rhs.wf(),
        ensures
            r is Some <==> self.quotient_fits(&rhs),
            r matches Some(u) ==> {
                &&& u.wf()
                &&& u.cached() is None
                &&& disjoint(u.top_view(), u.bottom_view())
                &&& forall|k: Seq<char>| u.exp(k) == self.exp(k) - rhs.exp(k)
            },
            self.sides() == rhs.sides() ==> r is Some && (r->0).dimensionless(),
    {
        let ghost divisor = rhs;
        let inverse = rhs.reciprocal();
        proof {
            if self.quotient_fits(&divisor) {
                assert forall|k: Seq<char>|
                    -(u32::MAX as int) <= #[trigger] self.exp(k) + inverse.exp(k)
                        <= u32::MAX by {
                    assert(-(u32::MAX as int) <= self.exp(k) - divisor.exp(k) <= u32::MAX);
                }
            }
            if self.product_fits(&inverse) {
                assert forall|k: Seq<char>|
                    -(u32::MAX as int) <= #[trigger] self.exp(k) - divisor.exp(k)
                        <= u32::MAX by {
                    assert(-(u32::MAX as int) <= self.exp(k) + inverse.exp(k) <= u32::MAX);
                }
            }
        }
        proof {
            if self.sides() == divisor.sides() {
                assert forall|k: Seq<char>|
                    -(u32::MAX as int) <= #[trigger] self.exp(k) + inverse.exp(k)
                        <= u32::MAX by {}
            }
        }
        let r = self.checked_multiply(inverse);
        proof {
            if self.sides() == divisor.sides() {
                let u = r->0;
                assert forall|k: Seq<char>|
                    power_in(u.top_view(), k) == 0 && power_in(u.bottom_view(), k) == 0 by {
                    assert(u.exp(k) == self.exp(k) + inverse.exp(k));
                    u.lemma_exp_bounded(k);
                }
                crate::exponent::lemma_no_power(u.top_view());
                crate::exponent::lemma_no_power(u.bottom_view());
            }
        }
        r
    }

    /// The quotient of two units: the product with the divisor turned
    /// upside down.
    pub fn divide(self, rhs: Unit) -> (r: Unit)
        requires
            self.wf(),
            rhs.wf(),
            self.quotient_fits(&rhs),
        ensures
            r.wf(),
            r.cached() is None,
            disjoint(r.top_view(), r.bottom_view()),
            forall|k: Seq<char>| r.exp(k) == self.exp(k) - rhs.exp(k),
            self.sides() == rhs.sides() ==> r.dimensionless(),
    {
        self.checked_divide(rhs).unwrap()
    }

    /// The unit raised to `power`: every exponent multiplied by it. `None`
    /// where an exponent would leave the machine word.
    pub fn power(&self, power: u32) -> (r: Option<Unit>)
        requires
            self.wf(),
        ensures
            r is Some <==> self.power_fits(power),
            r matches Some(u) ==> {
                &&& u.wf()
                &&& u.cached() is None
                &&& forall|k: Seq<char>| #[trigger] u.exp(k) == self.exp(k) * power
            },
    {
        let top = self.top.scaled(power);
        let bottom = self.bottom.scaled(power);
        proof {
            let a = self.top_view();
            let b = self.bottom_view();
            if self.power_fits(power) {
                assert forall|k: Seq<char>| #[trigger] power_in(a, k) * power <= u32::MAX by {
                    self.lemma_exp_bounded(k);
                    assert(-(u32::MAX as int) <= self.exp(k) * power <= u32::MAX);
                    lemma_scale_sign(self.exp(k), power as int);
                }
                assert forall|k: Seq<char>| #[trigger] power_in(b, k) * power <= u32::MAX by {
                    self.lemma_exp_bounded(k);
                    assert(-(u32::MAX as int) <= self.exp(k) * power <= u32::MAX);
                    lemma_scale_sign(self.exp(k), power as int);
                }
            }
            if top is Some && bottom is Some {
                assert forall|k: Seq<char>|
                    -(u32::MAX as int) <= #[trigger] self.exp(k) * power <= u32::MAX by {
                    self.lemma_exp_bounded(k);
                    assert(power_in(a, k) * power <= u32::MAX);
                    assert(power_in(b, k) * power <= u32::MAX);
                    lemma_scale_sign(self.exp(k), power as int);
                }
            }
        }
        match (top, bottom) {
            (Some(t), Some(b)) => {
                let r = Unit { top: t, bottom: b, simplified: None };
                proof {
                    assert forall|k: Seq<char>| #[trigger] r.exp(k) == self.exp(k) * power by {
                        self.lemma_exp_bounded(k);
                        assert(power_in(t@, k) == power_in(self.top_view(), k) * power);
                        assert(power_in(b@, k) == power_in(self.bottom_view(), k) * power);
                        lemma_scale_sign(self.exp(k), power as int);
                    }
                    assert forall|k: Seq<char>|
                        #![trigger power_in(t@, k)]
                        #![trigger power_in(b@, k)]
                        power_in(t@, k) == 0 || power_in(b@, k) == 0 by {
                        self.lemma_exp_bounded(k);
                        assert(power_in(t@, k) == power_in(self.top_view(), k) * power);
                        assert(power_in(b@, k) == power_in(self.bottom_view(), k) * power);
                        lemma_scale_sign(self.exp(k), power as int);
                    }
                }
                Some(r)
            },
            _ => None,
        }
    }
}

/// How a product with a factor that is not negative relates to the sign of
/// the other factor.
proof fn lemma_scale_sign(e: int, f: int)
    requires
        f >= 0,
    ensures
        e == 0 ==> e * f == 0,
        e > 0 ==> e * f >= 0 && (-e) * f == -(e * f),
        e < 0 ==> e * f <= 0 && (-e) * f == -(e * f),
        0 * f == 0,
{
    assert(e == 0 ==> e * f == 0) by (nonlinear_arith);
    assert(e > 0 ==> e * f >= 0 && (-e) * f == -(e * f)) by (nonlinear_arith)
        requires
            f >= 0,
    ;
    assert(e < 0 ==> e * f <= 0 && (-e) * f == -(e * f)) by (nonlinear_arith)
        requires
            f >= 0,
    ;
    assert(0 * f == 0) by (nonlinear_arith);
}

impl core::ops::Mul for Unit {
    type Output = Unit;

    /// The product of two units, written `a * b`.
    fn mul(self, rhs: Unit) -> (r: Unit)
        ensures
            r.wf(),
            r.cached() is None,
            disjoint(r.top_view(), r.bottom_view()),
            forall|k: Seq<char>| r.exp(k) == self.exp(k) + rhs.exp(k),
    {
        self.multiply(rhs)
    }
}

/// When `a * b` may be written. What the product is says the contract of
/// `mul` itself: a unit has no one value that a formula could name.
impl vstd::std_specs::ops::MulSpecImpl for Unit {
    open spec fn obeys_mul_spec() -> bool {
        false
    }

    open spec fn mul_req(self, rhs: Unit) -> bool {
        self.wf() && rhs.wf() && self.product_fits(&rhs)
    }

    open spec fn mul_spec(self, rhs: Unit) -> Unit {
        self
    }
}

impl core::ops::Div for Unit {
    type Output = Unit;

    /// The quotient of two units, written `a / b`.
    fn div(self, rhs: Unit) -> (r: Unit)
        ensures
            r.wf(),
            r.cached() is None,
            disjoint(r.top_view(), r.bottom_view()),
            forall|k: Seq<char>| r.exp(k) == self.exp(k) - rhs.exp(k),
    {
        self.divide(rhs)
    }
}

/// When `a / b` may be written. What the quotient is says the contract of
/// `div` itself.
impl vstd::std_specs::ops::DivSpecImpl for Unit {
    open spec fn obeys_div_spec() -> bool {
        false
    }

    open spec fn div_req(self, rhs: Unit) -> bool {
        self.wf() && rhs.wf() && self.quotient_fits(&rhs)
    }

    open spec fn div_spec(self, rhs: Unit) -> Unit {
        self
    }
}

impl Default for Unit {
    /// The dimensionless unit: nothing on either side.
    fn default() -> (r: Unit)
        ensures
            r.wf(),
            r.cached() is None,
            r.top_view() == Seq::<(Seq<char>, nat)>::empty(),
            r.bottom_view() == Seq::<(Seq<char>, nat)>::empty(),
            r.dimensionless(),
    {
        let r = Unit { top: ExponentMap::new(), bottom: ExponentMap::new(), simplified: None };
        proof {
            assert forall|k: Seq<char>|
                #![trigger power_in(r.top_view(), k)]
                #![trigger power_in(r.bottom_view(), k)]
                power_in(r.top_view(), k) == 0 || power_in(r.bottom_view(), k) == 0 by {
                assert(!crate::exponent::has_key(r.top_view(), k));
            }
        }
        r
    }
}

} // verus!
