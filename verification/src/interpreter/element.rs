//! What a print statement has to write, once its expression is evaluated.

use crate::error::{Cause, ErrorKind};
use crate::interpreter::scope::{TowerModel, TowerScope};
use crate::interpreter::variable::unit::render::rendered;
use crate::interpreter::variable::Unit;
use vstd::prelude::*;

verus! {

/// A text, or a unit that is still to be rendered.
pub enum Element {
    /// A text, written as it stands.
    String(String),
    /// A unit, written as its rendering.
    Expr(Unit),
}

impl Element {
    /// The line that this element is written as, or why it has none.
    pub open spec fn line(&self, scopes: TowerModel) -> Result<Seq<char>, Cause> {
        match self {
            Element::String(text) => Ok(text@),
            Element::Expr(unit) => rendered(unit.sides(), scopes),
        }
    }

    /// A unit is well formed.
    pub open spec fn wf(&self) -> bool {
        match self {
            Element::String(_) => true,
            Element::Expr(unit) => unit.wf(),
        }
    }

    /// The line that this element is written as: the text itself, or the
    /// rendering of the unit in the given scopes.
    pub fn to_line(&self, scopes: &TowerScope) -> (r: Result<String, ErrorKind>)
        requires
            self.wf(),
            scopes.wf(),
        ensures
            match r {
                Ok(text) => self.line(scopes@) == Ok::<Seq<char>, Cause>(text@),
                Err(e) => self.line(scopes@) == Err::<Seq<char>, Cause>(e@),
            },
    {
        match self {
            Element::String(text) => Ok(text.clone()),
            Element::Expr(unit) => unit.try_to_string(scopes),
        }
    }
}

} // verus!
