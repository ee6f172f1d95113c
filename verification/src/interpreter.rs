//! The evaluator with its environment and the values it binds.

pub mod element;
pub mod scope;
pub mod variable;

use crate::error::{Cause, DigifyError, ErrorKind};
use crate::exponent::Sides;
use crate::parser::{IExpr, IStmt, SpanView, Stmt};
use element::Element;
use scope::{bind_model, defined, inserted, Bound, TowerModel, TowerScope};
use variable::unit::expand::{compared, fresh, missing};
use variable::unit::render::rendered;
use variable::unit::walk::built_unit;
use variable::Unit;
use vstd::prelude::*;

verus! {

/// What an evaluator holds: the open scopes and the lines written so far.
pub struct State {
    pub scopes: TowerModel,
    pub output: Seq<Seq<char>>,
}

/// How a statement ended: without failure, or with one and its place.
pub type Failed = Option<(Cause, SpanView)>;

/// The sides of the unit that an expression denotes, each name standing for
/// itself unless the expression asks for its expansion, and what building
/// it leaves in the scopes; or the failure it ends in, at the place of the
/// expression: that of building the unit, else the first name of the unit
/// that no scope binds.
pub open spec fn built(expr: IExpr, scopes: TowerModel) -> (
    Result<Sides, (Cause, SpanView)>,
    TowerModel,
) {
    let b = built_unit(expr.item, false, scopes);
    match b.0 {
        Err(c) => (Err((c, expr.span@)), b.1),
        Ok(sides) => if missing(sides.0, sides.1, b.1) is Some {
            (Err((Cause::NotDeclared(missing(sides.0, sides.1, b.1)->0), expr.span@)), b.1)
        } else {
            (Ok(sides), b.1)
        },
    }
}

/// What an assertion of two units ends in, and what it leaves in the
/// scopes. The units are compared, which expands the first and then the
/// second in the scopes as they stand and has the bindings store what was
/// asked of them. A failure to expand is the failure of the assertion;
/// where the expansions differ, the assertion fails with the renderings of
/// both units, or with the failure to render one of them.
pub open spec fn asserted(left: Sides, right: Sides, scopes: TowerModel, span: SpanView) -> (
    Failed,
    TowerModel,
) {
    let c = compared(fresh(left), fresh(right), scopes);
    match c.0 {
        Err(e) => (Some((e, span)), c.3),
        Ok(same) => if same {
            (None, c.3)
        } else {
            match rendered(left, c.3) {
                Err(e) => (Some((e, span)), c.3),
                Ok(expected) => match rendered(right, c.3) {
                    Err(e) => (Some((e, span)), c.3),
                    Ok(actual) => (Some((Cause::AssertFail(expected, actual), span)), c.3),
                },
            }
        },
    }
}

/// What evaluating a statement leaves, and how it ended.
///
/// A definition binds a primitive unit in the innermost scope. A `let`
/// binds the unit of its expression, as it is. An assertion compares the
/// expansions of two units, taken in the scopes as they stand. A print
/// statement adds a line to the output. A block opens a scope, runs its
/// statements up to the first failure, and closes the scope again whether
/// one failed or not.
pub open spec fn run(stmt: IStmt, s: State) -> (State, Failed)
    decreases stmt, 0int,
{
    match stmt.item {
        Stmt::Definition(ident, symbole) => if s.scopes.last().contains_key(ident.item@) {
            (s, Some((Cause::AlreadyDeclared(ident.item@), ident.span@)))
        } else {
            (
                State {
                    scopes: bind_model(
                        s.scopes,
                        ident.item@,
                        defined(ident.item@, symbole.item@, ident.span@),
                    ),
                    output: s.output,
                },
                None,
            )
        },
        Stmt::Let(ident, expr) => {
            let b = built(expr, s.scopes);
            match b.0 {
                Err(e) => (State { scopes: b.1, output: s.output }, Some(e)),
                Ok(sides) => if b.1.last().contains_key(ident.item@) {
                    (
                        State { scopes: b.1, output: s.output },
                        Some((Cause::AlreadyDeclared(ident.item@), ident.span@)),
                    )
                } else {
                    (
                        State {
                            scopes: bind_model(
                                b.1,
                                ident.item@,
                                inserted(fresh(sides), ident.span@),
                            ),
                            output: s.output,
                        },
                        None,
                    )
                },
            }
        },
        Stmt::Assert(left, right) => {
            let first = built(left, s.scopes);
            match first.0 {
                Err(e) => (State { scopes: first.1, output: s.output }, Some(e)),
                Ok(a) => {
                    let second = built(right, first.1);
                    match second.0 {
                        Err(e) => (State { scopes: second.1, output: s.output }, Some(e)),
                        Ok(b) => {
                            let end = asserted(a, b, second.1, stmt.span@);
                            (State { scopes: end.1, output: s.output }, end.0)
                        },
                    }
                },
            }
        },
        Stmt::Print(element) => match element {
            crate::parser::Element::String(text) => (
                State { scopes: s.scopes, output: s.output.push(text.item@) },
                None,
            ),
            crate::parser::Element::Expr(expr) => {
                let b = built(expr, s.scopes);
                match b.0 {
                    Err(e) => (State { scopes: b.1, output: s.output }, Some(e)),
                    Ok(sides) => match rendered(sides, b.1) {
                        Err(c) => (State { scopes: b.1, output: s.output }, Some((c, expr.span@))),
                        Ok(line) => (State { scopes: b.1, output: s.output.push(line) }, None),
                    },
                }
            },
        },
        Stmt::Block(stmts) => {
            let inner = run_all(
                stmts,
                0,
                State { scopes: s.scopes.push(Map::<Seq<char>, Bound>::empty()), output: s.output },
            );
            (State { scopes: inner.0.scopes.drop_last(), output: inner.0.output }, inner.1)
        },
    }
}

/// What evaluating the statements from index `i` on leaves, and how it
/// ended: they run in order, and the first failure ends the run.
pub open spec fn run_all(stmts: Vec<IStmt>, i: int, s: State) -> (State, Failed)
    decreases stmts, stmts.len() - i,
{
    if i < 0 || i >= stmts.len() {
        (s, None)
    } else {
        let step = run(stmts[i], s);
        if step.1 is Some {
            step
        } else {
            run_all(stmts, i + 1, step.0)
        }
    }
}

/// How a result of the evaluator reads as the end of a statement.
pub open spec fn ended(r: Result<(), DigifyError>) -> Failed {
    match r {
        Ok(_) => None,
        Err(e) => Some(e@),
    }
}

/// The evaluator: the open scopes, and the lines that print statements
/// have written.
pub struct Interpreter {
    scopes: TowerScope,
    output: Vec<String>,
}

impl View for Interpreter {
    type V = State;

    closed spec fn view(&self) -> State {
        State { scopes: self.scopes@, output: Seq::new(self.output@.len(), |i: int| self.output@[i]@) }
    }
}

impl Interpreter {
    /// Every bound value is well formed.
    pub closed spec fn wf(&self) -> bool {
        self.scopes.wf()
    }

    /// The open scopes.
    pub fn scopes(&self) -> (r: &TowerScope)
        ensures
            r@ == self@.scopes,
            self.wf() ==> r.wf(),
    {
        &self.scopes
    }

    /// The lines written so far, oldest first.
    pub fn output(&self) -> (r: &Vec<String>)
        ensures
            r@.len() == self@.output.len(),
            forall|i: int| 0 <= i < r@.len() ==> (#[trigger] r@[i])@ == self@.output[i],
    {
        &self.output
    }

    /// Hands out the lines written so far and starts with none again.
    pub fn take_output(&mut self) -> (r: Vec<String>)
        ensures
            r@.len() == old(self)@.output.len(),
            forall|i: int| 0 <= i < r@.len() ==> (#[trigger] r@[i])@ == old(self)@.output[i],
            final(self)@ == (State { scopes: old(self)@.scopes, output: Seq::empty() }),
            old(self).wf() ==> final(self).wf(),
    {
        let mut lines: Vec<String> = Vec::new();
        core::mem::swap(&mut self.output, &mut lines);
        assert(self@.output =~= Seq::<Seq<char>>::empty());
        lines
    }

    /// The unit that an expression denotes, checked against the scopes:
    /// every name of the unit has to be bound.
    fn eval_expr(&mut self, expr: &IExpr) -> (r: Result<Unit, DigifyError>)
        requires
            old(self).wf(),
        ensures
            final(self).wf(),
            final(self)@.output == old(self)@.output,
            final(self)@.scopes == built(*expr, old(self)@.scopes).1,
            final(self)@.scopes.len() == old(self)@.scopes.len(),
            match r {
                Ok(u) => {
                    &&& built(*expr, old(self)@.scopes).0 == Ok::<Sides, (Cause, SpanView)>(
                        u.sides(),
                    )
                    &&& u.wf()
                    &&& u.cached() is None
                },
                Err(e) => built(*expr, old(self)@.scopes).0 == Err::<Sides, (Cause, SpanView)>(
                    e@,
                ),
            },
    {
        let built = Unit::from(&expr.item, &mut self.scopes);
        proof {
            assert(self@.output =~= old(self)@.output);
        }
        let unit = match built {
            Ok(u) => u,
            Err(kind) => {
                return Err(DigifyError::new(kind, expr.span.duplicate()));
            },
        };
        if let Some(name) = unit.first_undeclared(&self.scopes) {
            return Err(
                DigifyError::new(ErrorKind::VariableNotDeclared(name), expr.span.duplicate()),
            );
        }
        Ok(unit)
    }

    /// What a print statement has to write, with its expression evaluated.
    fn eval_element(&mut self, element: &crate::parser::Element) -> (r: Result<
        Element,
        DigifyError,
    >)
        requires
            old(self).wf(),
        ensures
            final(self).wf(),
            final(self)@.output == old(self)@.output,
            final(self)@.scopes.len() == old(self)@.scopes.len(),
            match *element {
                crate::parser::Element::String(text) => {
                    &&& final(self)@.scopes == old(self)@.scopes
                    &&& r matches Ok(Element::String(t))
                    &&& t@ == text.item@
                },
                crate::parser::Element::Expr(expr) => {
                    &&& final(self)@.scopes == built(expr, old(self)@.scopes).1
                    &&& match r {
                        Ok(el) => {
                            &&& el matches Element::Expr(u)
                            &&& u.wf()
                            &&& built(expr, old(self)@.scopes).0 == Ok::<
                                Sides,
                                (Cause, SpanView),
                            >(u.sides())
                        },
                        Err(e) => built(expr, old(self)@.scopes).0 == Err::<
                            Sides,
                            (Cause, SpanView),
                        >(e@),
                    }
                },
            },
    {
        match element {
            crate::parser::Element::Expr(expr) => {
                match self.eval_expr(expr) {
                    Ok(unit) => Ok(Element::Expr(unit)),
                    Err(e) => Err(e),
                }
            },
            crate::parser::Element::String(text) => Ok(Element::String(text.item.clone())),
        }
    }

    /// Evaluates one statement: binds what it declares, checks what it
    /// asserts, writes what it prints. A block runs in a scope of its own,
    /// which is closed again on every way out.
    pub fn eval(&mut self, stmt: &IStmt) -> (r: Result<(), DigifyError>)
        requires
            old(self).wf(),
            stmt.item is Definition || stmt.item is Let ==> old(self)@.scopes.len() > 0,
        ensures
            final(self).wf(),
            final(self)@.scopes.len() == old(self)@.scopes.len(),
            (final(self)@, ended(r)) == run(*stmt, old(self)@),
        decreases *stmt,
    {
        match &stmt.item {
            Stmt::Definition(ident, symbole) => {
                let name = crate::parser::Item::new(ident.item.clone(), ident.span.duplicate());
                let r = self.scopes.define(name, symbole.as_str());
                proof {
                    assert(self@.output =~= old(self)@.output);
                }
                r
            },
            Stmt::Let(ident, expr) => {
                let unit = match self.eval_expr(expr) {
                    Ok(u) => u,
                    Err(e) => {
                        return Err(e);
                    },
                };
                let ghost mid = self@;
                let name = crate::parser::Item::new(ident.item.clone(), ident.span.duplicate());
                let r = self.scopes.insert(name, unit);
                proof {
                    assert(self@.output =~= mid.output);
                    assert(unit@ == fresh(unit.sides()));
                }
                r
            },
            Stmt::Assert(left, right) => {
                let mut unit1 = match self.eval_expr(left) {
                    Ok(u) => u,
                    Err(e) => {
                        return Err(e);
                    },
                };
                let mut unit2 = match self.eval_expr(right) {
                    Ok(u) => u,
                    Err(e) => {
                        return Err(e);
                    },
                };
                let ghost mid = self@;
                proof {
                    assert(unit1@ == fresh(unit1.sides()));
                    assert(unit2@ == fresh(unit2.sides()));
                }
                let same = unit1.eq(&mut unit2, &mut self.scopes);
                proof {
                    assert(self@.output =~= mid.output);
                }
                match same {
                    Ok(true) => Ok(()),
                    Ok(false) => {
                        let expected = match unit1.try_to_string(&self.scopes) {
                            Ok(text) => text,
                            Err(kind) => {
                                return Err(DigifyError::new(kind, stmt.span.duplicate()));
                            },
                        };
                        let actual = match unit2.try_to_string(&self.scopes) {
                            Ok(text) => text,
                            Err(kind) => {
                                return Err(DigifyError::new(kind, stmt.span.duplicate()));
                            },
                        };
                        Err(
                            DigifyError::new(
                                ErrorKind::AssertFail(expected, actual),
                                stmt.span.duplicate(),
                            ),
                        )
                    },
                    Err(kind) => Err(DigifyError::new(kind, stmt.span.duplicate())),
                }
            },
            Stmt::Print(element) => {
                let el = match self.eval_element(element) {
                    Ok(el) => el,
                    Err(e) => {
                        return Err(e);
                    },
                };
                let ghost mid = self@;
                let line = match el.to_line(&self.scopes) {
                    Ok(line) => line,
                    Err(kind) => {
                        let span = match element {
                            crate::parser::Element::Expr(expr) => expr.span.duplicate(),
                            crate::parser::Element::String(text) => text.span.duplicate(),
                        };
                        return Err(DigifyError::new(kind, span));
                    },
                };
                self.output.push(line);
                proof {
                    assert(self@.output =~= mid.output.push(line@));
                }
                Ok(())
            },
            Stmt::Block(stmts) => {
                self.scopes.enter_scope();
                let ghost entered = self@;
                proof {
                    assert(self@.output =~= old(self)@.output);
                }
                let mut i: usize = 0;
                while i < stmts.len()
                    invariant
                        self.wf(),
                        i <= stmts.len(),
                        stmt.item == Stmt::Block(*stmts),
                        self@.scopes.len() == entered.scopes.len(),
                        entered.scopes == old(self)@.scopes.push(Map::<Seq<char>, Bound>::empty()),
                        entered.output == old(self)@.output,
                        run_all(*stmts, 0, entered) == run_all(*stmts, i as int, self@),
                    decreases stmts.len() - i,
                {
                    proof {
                        assert(decreases_to!(*stmts => stmts[i as int]));
                        assert(stmt.item->Block_0 == *stmts);
                        assert(decreases_to!(stmt.item => stmt.item->Block_0));
                    }
                    match self.eval(&stmts[i]) {
                        Ok(_) => {},
                        Err(e) => {
                            let ghost inner = self@;
                            self.scopes.exit_scope();
                            proof {
                                assert(self@.output =~= inner.output);
                            }
                            return Err(e);
                        },
                    }
                    i += 1;
                }
                let ghost inner = self@;
                self.scopes.exit_scope();
                proof {
                    assert(self@.output =~= inner.output);
                }
                Ok(())
            },
        }
    }
}

impl Default for Interpreter {
    /// An evaluator with no scope open and nothing written.
    fn default() -> (r: Interpreter)
        ensures
            r.wf(),
            r@ == (State { scopes: Seq::empty(), output: Seq::empty() }),
    {
        let r = Interpreter { scopes: TowerScope::default(), output: Vec::new() };
        assert(r@.output =~= Seq::<Seq<char>>::empty());
        r
    }
}

} // verus!
