//! The text that a unit is shown as.

use crate::error::{Cause, ErrorKind};
use crate::exponent::{Model, Sides};
use crate::interpreter::scope::{fuel_of, lookup, TowerModel, TowerScope};
use crate::interpreter::variable::unit::Unit;
use crate::interpreter::variable::{Variable, VariableView};
use crate::text::{decimal, push_decimal, push_text};
use vstd::prelude::*;

verus! {

/// An entry of the numerator: the name alone for the first power, else the
/// name, a caret and the power.
pub open spec fn top_token(e: (Seq<char>, nat)) -> Seq<char> {
    if e.1 == 1 {
        e.0
    } else {
        e.0 + "^"@ + decimal(e.1)
    }
}

/// An entry of the denominator: the name and `-1` for the first power, else
/// the name, a caret, a minus sign and the power.
pub open spec fn bottom_token(e: (Seq<char>, nat)) -> Seq<char> {
    if e.1 == 1 {
        e.0 + "-1"@
    } else {
        e.0 + "^-"@ + decimal(e.1)
    }
}

/// The token at index `i` of a fraction: those of the numerator come
/// first, then those of the denominator, each side in the order of its
/// names.
pub open spec fn token(top: Model, bottom: Model, i: int) -> Seq<char> {
    if i < top.len() {
        top_token(top[i])
    } else {
        bottom_token(bottom[i - top.len()])
    }
}

/// The first `n` tokens of a fraction, one space between two of them and
/// none at either end.
pub open spec fn listed(top: Model, bottom: Model, n: int) -> Seq<char>
    decreases n,
{
    if n <= 0 {
        Seq::empty()
    } else if n == 1 {
        token(top, bottom, 0)
    } else {
        listed(top, bottom, n - 1) + " "@ + token(top, bottom, n - 1)
    }
}

/// The name that a unit consists of, where it is one name to the first
/// power over nothing.
pub open spec fn lone_name(top: Model, bottom: Model) -> Option<Seq<char>> {
    if top.len() == 1 && top[0].1 == 1 && bottom.len() == 0 {
        Some(top[0].0)
    } else {
        None
    }
}

/// The rendering of the fraction `top / bottom` in the given scopes: `1`
/// where both sides are empty; for a lone name, the symbol of the
/// primitive unit that it is bound to, or the rendering, in the same
/// scopes, of the unit that it is bound to; else its tokens.
///
/// A lone name that nothing binds cannot be rendered. `fuel` bounds how many
/// bound units are followed one into the next; where it runs out, the
/// names stand for themselves and there is no rendering.
pub open spec fn render(top: Model, bottom: Model, scopes: TowerModel, fuel: nat) -> Result<
    Seq<char>,
    Cause,
>
    decreases fuel,
{
    if top.len() == 0 && bottom.len() == 0 {
        Ok("1"@)
    } else if lone_name(top, bottom) is Some {
        let name = lone_name(top, bottom)->0;
        match lookup(scopes, name) {
            None => Err(Cause::NotDeclared(name)),
            Some(b) => match b.variable {
                VariableView::Axiom(_, symbol) => Ok(symbol),
                VariableView::Unit(u) => if fuel == 0 {
                    Err(Cause::Cyclic)
                } else {
                    render(u.sides.0, u.sides.1, scopes, (fuel - 1) as nat)
                },
            },
        }
    } else {
        Ok(listed(top, bottom, (top.len() + bottom.len()) as int))
    }
}

/// The rendering of a fraction in the given scopes, following bound units
/// as far as the scopes have bindings.
pub open spec fn rendered(sides: Sides, scopes: TowerModel) -> Result<Seq<char>, Cause> {
    render(sides.0, sides.1, scopes, fuel_of(scopes))
}

/// The dimensionless unit is rendered as `1`, whatever the scopes bind.
pub proof fn lemma_one_renders(scopes: TowerModel)
    ensures
        rendered(
            (Seq::<(Seq<char>, nat)>::empty(), Seq::<(Seq<char>, nat)>::empty()),
            scopes,
        ) == Ok::<Seq<char>, Cause>("1"@),
{
}

/// A rendering that is reached stays what it is when more bound units may
/// be followed.
pub proof fn lemma_render_further(top: Model, bottom: Model, scopes: TowerModel, less: nat, more: nat)
    requires
        less <= more,
        render(top, bottom, scopes, less) is Ok,
    ensures
        render(top, bottom, scopes, more) == render(top, bottom, scopes, less),
    decreases less,
{
    if !(top.len() == 0 && bottom.len() == 0) && lone_name(top, bottom) is Some {
        let name = lone_name(top, bottom)->0;
        if lookup(scopes, name) is Some {
            let b = lookup(scopes, name)->0;
            if let VariableView::Unit(u) = b.variable {
                lemma_render_further(
                    u.sides.0,
                    u.sides.1,
                    scopes,
                    (less - 1) as nat,
                    (more - 1) as nat,
                );
            }
        }
    }
}

impl Unit {
    /// The rendering of this unit in the given scopes.
    pub open spec fn rendering(&self, scopes: &TowerScope) -> Result<Seq<char>, Cause> {
        rendered(self.sides(), scopes@)
    }

    /// The tokens of the unit, one space between two of them.
    fn list(&self) -> (r: String)
        requires
            self.wf(),
        ensures
            r@ == listed(
                self.top_view(),
                self.bottom_view(),
                (self.top_view().len() + self.bottom_view().len()) as int,
            ),
    {
        let top = self.top();
        let bottom = self.bottom();
        let mut out = String::new();
        let mut i: usize = 0;
        while i < top.len()
            invariant
                top.wf(),
                top@ == self.top_view(),
                bottom@ == self.bottom_view(),
                i <= top@.len(),
                out@ == listed(top@, bottom@, i as int),
            decreases top@.len() - i,
        {
            let ghost before = out@;
            if i > 0 {
                push_text(&mut out, " ");
            }
            push_text(&mut out, top.name_at(i).as_str());
            let power = top.power_at(i);
            if power != 1 {
                push_text(&mut out, "^");
                push_decimal(&mut out, power as u64);
            }
            proof {
                assert(token(top@, bottom@, i as int) == top_token(top@[i as int]));
                if i == 0 {
                    assert(before =~= Seq::<char>::empty());
                    assert(out@ =~= token(top@, bottom@, 0));
                } else {
                    assert(out@ =~= before + " "@ + token(top@, bottom@, i as int));
                }
            }
            i += 1;
        }
        let mut j: usize = 0;
        let n = top.len();
        while j < bottom.len()
            invariant
                top.wf(),
                bottom.wf(),
                top@ == self.top_view(),
                bottom@ == self.bottom_view(),
                n == top@.len(),
                j <= bottom@.len(),
                out@ == listed(top@, bottom@, n + j),
            decreases bottom@.len() - j,
        {
            let ghost before = out@;
            if n > 0 || j > 0 {
                push_text(&mut out, " ");
            }
            push_text(&mut out, bottom.name_at(j).as_str());
            let power = bottom.power_at(j);
            if power == 1 {
                push_text(&mut out, "-1");
            } else {
                push_text(&mut out, "^-");
                push_decimal(&mut out, power as u64);
            }
            proof {
                assert(token(top@, bottom@, n + j) == bottom_token(bottom@[j as int]));
                if n == 0 && j == 0 {
                    assert(before =~= Seq::<char>::empty());
                    assert(out@ =~= token(top@, bottom@, 0));
                } else {
                    assert(out@ =~= before + " "@ + token(top@, bottom@, n + j));
                }
            }
            j += 1;
        }
        out
    }

    /// The rendering of this unit, following at most `fuel` bound units.
    fn render_within(&self, scopes: &TowerScope, fuel: usize) -> (r: Result<String, ErrorKind>)
        requires
            self.wf(),
            scopes.wf(),
        ensures
            match r {
                Ok(text) => render(self.top_view(), self.bottom_view(), scopes@, fuel as nat)
                    == Ok::<Seq<char>, Cause>(text@),
                Err(e) => render(self.top_view(), self.bottom_view(), scopes@, fuel as nat)
                    == Err::<Seq<char>, Cause>(e@),
            },
        decreases fuel,
    {
        let top = self.top();
        let bottom = self.bottom();
        if top.is_empty() && bottom.is_empty() {
            let mut out = String::new();
            push_text(&mut out, "1");
            assert(out@ =~= "1"@);
            return Ok(out);
        }
        if top.len() == 1 && bottom.is_empty() && top.power_at(0) == 1 {
            let name = top.name_at(0);
            return match scopes.get_existing(name.as_str()) {
                None => Err(ErrorKind::VariableNotDeclared(name.clone())),
                Some(bound) => match bound.item() {
                    Variable::Axiom(prim) => {
                        let mut out = String::new();
                        push_text(&mut out, prim.symbole());
                        assert(out@ =~= prim.symbole_view());
                        Ok(out)
                    },
                    Variable::Unit(unit) => {
                        if fuel == 0 {
                            Err(ErrorKind::CyclicDefinition)
                        } else {
                            unit.render_within(scopes, fuel - 1)
                        }
                    },
                },
            };
        }
        Ok(self.list())
    }

    /// The rendering of this unit, or why it has none. The dimensionless
    /// unit is `1`. A unit that is one bound name alone is shown as what
    /// the name is bound to in these scopes: a primitive unit by its
    /// symbol, a bound unit by the rendering of that unit. Any other unit
    /// lists its numerator and then its denominator.
    pub fn try_to_string(&self, scopes: &TowerScope) -> (r: Result<String, ErrorKind>)
        requires
            self.wf(),
            scopes.wf(),
        ensures
            match r {
                Ok(text) => self.rendering(scopes) == Ok::<Seq<char>, Cause>(text@),
                Err(e) => self.rendering(scopes) == Err::<Seq<char>, Cause>(e@),
            },
    {
        self.render_within(scopes, scopes.fuel())
    }

    /// The rendering of this unit, where it has one.
    pub fn to_string(&self, scopes: &TowerScope) -> (r: String)
        requires
            self.wf(),
            scopes.wf(),
            self.rendering(scopes) is Ok,
        ensures
            self.rendering(scopes) == Ok::<Seq<char>, Cause>(r@),
            lone_name(self.top_view(), self.bottom_view()) is Some ==> match (lookup(
                scopes@,
                lone_name(self.top_view(), self.bottom_view())->0,
            )->0).variable {
                VariableView::Axiom(_, symbol) => r@ == symbol,
                VariableView::Unit(u) => rendered(u.sides, scopes@) == Ok::<Seq<char>, Cause>(r@),
            },
    {
        proof {
            if lone_name(self.top_view(), self.bottom_view()) is Some {
                let name = lone_name(self.top_view(), self.bottom_view())->0;
                if let VariableView::Unit(u) = (lookup(scopes@, name)->0).variable {
                    lemma_render_further(
                        u.sides.0,
                        u.sides.1,
                        scopes@,
                        (fuel_of(scopes@) - 1) as nat,
                        fuel_of(scopes@),
                    );
                }
            }
        }
        match self.try_to_string(scopes) {
            Ok(text) => text,
            Err(_) => String::new(),
        }
    }
}

} // verus!
