//! Primitive units.

use crate::exponent::ExponentMap;
use crate::interpreter::variable::unit::Unit;
use vstd::prelude::*;

verus! {

/// A primitive unit: an identifier and the symbol it is shown as.
///
/// It stands for the unit with itself to the first power in the numerator
/// and nothing else, which is built once, when the value is made.
#[derive(Debug)]
pub struct Axiom {
    ident: String,
    symbole: String,
    unit: Unit,
}

impl Axiom {
    /// The identifier.
    pub closed spec fn ident_view(&self) -> Seq<char> {
        self.ident@
    }

    /// The display symbol.
    pub closed spec fn symbole_view(&self) -> Seq<char> {
        self.symbole@
    }

    /// The unit that it stands for.
    pub closed spec fn unit_spec(&self) -> Unit {
        self.unit
    }

    /// The unit it stands for is its identifier to the first power.
    pub open spec fn wf(&self) -> bool {
        &&& self.unit_spec().wf()
        &&& self.unit_spec().cached() is None
        &&& forall|k: Seq<char>|
            self.unit_spec().exp(k) == if k == self.ident_view() {
                1int
            } else {
                0int
            }
    }

    /// The primitive unit named `ident` and shown as `symbole`.
    pub fn new(ident: &str, symbole: &str) -> (r: Axiom)
        ensures
            r.wf(),
            r.ident_view() == ident@,
            r.symbole_view() == symbole@,
    {
        let mut top = ExponentMap::new();
        top.put(ident, 1);
        let unit = Unit::new(top, ExponentMap::new());
        proof {
            assert forall|k: Seq<char>|
                unit.exp(k) == if k == ident@ {
                    1int
                } else {
                    0int
                } by {
                assert(!crate::exponent::has_key(Seq::<(Seq<char>, nat)>::empty(), k));
            }
        }
        Axiom { ident: ident.to_owned(), symbole: symbole.to_owned(), unit }
    }

    /// The identifier.
    pub fn ident(&self) -> (r: &str)
        ensures
            r@ == self.ident_view(),
    {
        self.ident.as_str()
    }

    /// The display symbol.
    pub fn symbole(&self) -> (r: &str)
        ensures
            r@ == self.symbole_view(),
    {
        self.symbole.as_str()
    }

    /// The unit that it stands for: its identifier to the first
    /// power. Expanding that unit gives the same unit again.
    pub fn as_unit(&self) -> (r: &Unit)
        requires
            self.wf(),
        ensures
            *r == self.unit_spec(),
            r.wf(),
            r.cached() is None,
            forall|k: Seq<char>|
                r.exp(k) == if k == self.ident_view() {
                    1int
                } else {
                    0int
                },
    {
        &self.unit
    }

    /// Whether two primitive units are the same declared unit: whether they have the
    /// same identifier. The display symbol plays no part.
    pub fn same(&self, other: &Axiom) -> (b: bool)
        ensures
            b == (self.ident_view() == other.ident_view()),
    {
        crate::ident::name_equal(self.ident.as_str(), other.ident.as_str())
    }
}

} // verus!
