//! What a name can be bound to.

pub mod primitive;
pub mod unit;

pub use primitive::Axiom;
pub use unit::{Unit, UnitView};

use crate::exponent::{power_in, reduced_sides};
use crate::parser::Item;
use vstd::prelude::*;

verus! {

/// A bound value with the place of its declaration.
pub type IVariable = Item<Variable>;

/// What a name is bound to: a derived unit or a primitive one.
#[derive(Debug)]
pub enum Variable {
    /// A unit bound by a `let`.
    Unit(Unit),
    /// A primitive unit.
    Axiom(Axiom),
}

/// What a bound value says.
pub enum VariableView {
    /// A unit, with its sides and its expansion.
    Unit(UnitView),
    /// A primitive unit, with its identifier and its display symbol.
    Axiom(Seq<char>, Seq<char>),
}

impl View for Variable {
    type V = VariableView;

    open spec fn view(&self) -> VariableView {
        match self {
            Variable::Unit(unit) => VariableView::Unit(unit@),
            Variable::Axiom(prim) => VariableView::Axiom(prim.ident_view(), prim.symbole_view()),
        }
    }
}

/// The power of `a` in the numerator of the expansion of a bound value: a
/// unit's stored expansion; a primitive unit is its own expansion.
pub open spec fn canon_top(v: VariableView, a: Seq<char>) -> nat {
    match v {
        VariableView::Unit(u) => power_in((u.cache->0).0, a),
        VariableView::Axiom(ident, _) => if a == ident {
            1
        } else {
            0
        },
    }
}

/// The power of `a` in the denominator of the expansion of a bound value.
pub open spec fn canon_bottom(v: VariableView, a: Seq<char>) -> nat {
    match v {
        VariableView::Unit(u) => power_in((u.cache->0).1, a),
        VariableView::Axiom(_, _) => 0,
    }
}

/// The signed exponent of `a` in the expansion of a bound value.
pub open spec fn canon_exp(v: VariableView, a: Seq<char>) -> int {
    canon_top(v, a) - canon_bottom(v, a)
}

/// Whether a bound value has an expansion: a primitive unit always has; a
/// bound unit has one from the time it was first asked for.
pub open spec fn has_canon(v: VariableView) -> bool {
    match v {
        VariableView::Unit(u) => u.cache is Some,
        VariableView::Axiom(_, _) => true,
    }
}

/// A bound unit is reduced, and so is its expansion where it has one.
pub open spec fn bound_wf(v: VariableView) -> bool {
    match v {
        VariableView::Unit(u) => reduced_sides(u.sides) && (u.cache is Some ==> reduced_sides(
            u.cache->0,
        )),
        VariableView::Axiom(_, _) => true,
    }
}

impl Variable {
    /// A bound unit or primitive unit is well formed.
    pub open spec fn wf(&self) -> bool {
        match self {
            Variable::Unit(unit) => unit.wf(),
            Variable::Axiom(prim) => prim.wf(),
        }
    }

    /// The expansion into primitive units of what is bound: the stored
    /// expansion of a unit, where it has one; the unit of a primitive one.
    pub fn simplify(&self) -> (r: Option<&Unit>)
        requires
            self.wf(),
        ensures
            bound_wf(self@),
            r is Some <==> has_canon(self@),
            r matches Some(c) ==> {
                &&& c.wf()
                &&& c.cached() is None
                &&& forall|a: Seq<char>| power_in(c.top_view(), a) == canon_top(self@, a)
                &&& forall|a: Seq<char>| power_in(c.bottom_view(), a) == canon_bottom(self@, a)
                &&& forall|a: Seq<char>| c.exp(a) == canon_exp(self@, a)
            },
    {
        match self {
            Variable::Unit(unit) => unit.simplified(),
            Variable::Axiom(prim) => {
                let r = prim.as_unit();
                proof {
                    assert forall|a: Seq<char>|
                        power_in(r.top_view(), a) == canon_top(self@, a) && power_in(
                            r.bottom_view(),
                            a,
                        ) == canon_bottom(self@, a) by {
                        r.lemma_exp_bounded(a);
                    }
                }
                Some(r)
            },
        }
    }
}

} // verus!
