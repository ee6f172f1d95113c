//! The environment: a stack of scopes, innermost last.

use crate::error::{Cause, DigifyError, ErrorKind};
use crate::exponent::Sides;
use crate::ident::name_equal;
use crate::interpreter::variable::{
    bound_wf, Axiom, IVariable, Unit, UnitView, Variable, VariableView,
};
use crate::parser::{Istr, Item, SpanView};
use vstd::prelude::*;

verus! {

/// What a scope knows of a name: the bound value and the place of its
/// declaration.
pub struct Bound {
    pub variable: VariableView,
    pub span: SpanView,
}

/// The bindings of one scope.
pub type ScopeModel = Map<Seq<char>, Bound>;

/// The bindings of a stack of scopes, outermost first.
pub type TowerModel = Seq<ScopeModel>;

/// The innermost binding of `k`, where there is one.
pub open spec fn lookup(m: TowerModel, k: Seq<char>) -> Option<Bound>
    decreases m.len(),
{
    if m.len() == 0 {
        None
    } else if m.last().contains_key(k) {
        Some(m.last()[k])
    } else {
        lookup(m.drop_last(), k)
    }
}

/// The index of the innermost scope that binds `k`; below zero where none
/// does.
pub open spec fn level_of(m: TowerModel, k: Seq<char>) -> int
    decreases m.len(),
{
    if m.len() == 0 {
        -1
    } else if m.last().contains_key(k) {
        m.len() - 1
    } else {
        level_of(m.drop_last(), k)
    }
}

/// Every bound value of the stack is well formed.
pub open spec fn tower_wf(m: TowerModel) -> bool {
    forall|i: int, k: Seq<char>|
        0 <= i < m.len() && #[trigger] m[i].contains_key(k) ==> bound_wf(m[i][k].variable)
}

/// The stack with `name` bound to `b` in the innermost scope.
pub open spec fn bind_model(m: TowerModel, name: Seq<char>, b: Bound) -> TowerModel {
    m.update(m.len() - 1, m.last().insert(name, b))
}

/// What binding `name` to a primitive unit shown as `symbol` leaves in the
/// innermost scope.
pub open spec fn defined(name: Seq<char>, symbol: Seq<char>, span: SpanView) -> Bound {
    Bound { variable: VariableView::Axiom(name, symbol), span }
}

/// What binding a name to the unit `u` leaves in the innermost scope: the
/// unit as it is, with the expansion it carries or without one.
pub open spec fn inserted(u: UnitView, span: SpanView) -> Bound {
    Bound { variable: VariableView::Unit(u), span }
}

/// A bound unit with `c` as its stored expansion; a primitive unit as it
/// is.
pub open spec fn with_expansion(b: Bound, c: Sides) -> Bound {
    match b.variable {
        VariableView::Unit(u) => Bound {
            variable: VariableView::Unit(UnitView { sides: u.sides, cache: Some(c) }),
            span: b.span,
        },
        VariableView::Axiom(_, _) => b,
    }
}

/// The stack in which the innermost binding of `name` stores `c` as its
/// expansion; the stack itself where nothing binds `name`.
pub open spec fn stored(m: TowerModel, name: Seq<char>, c: Sides) -> TowerModel {
    let i = level_of(m, name);
    if 0 <= i < m.len() {
        m.update(i, m[i].insert(name, with_expansion(m[i][name], c)))
    } else {
        m
    }
}

/// The number of bindings in all the scopes of the stack.
pub open spec fn size(m: TowerModel) -> nat
    decreases m.len(),
{
    if m.len() == 0 {
        0
    } else {
        size(m.drop_last()) + m.last().dom().len()
    }
}

/// How many bound units may be followed, one into the next, before the
/// names are taken to stand for themselves: as many as there are bindings,
/// as far as the machine word counts.
pub open spec fn fuel_of(m: TowerModel) -> nat {
    if size(m) > usize::MAX {
        usize::MAX as nat
    } else {
        size(m)
    }
}

/// Scopes that hold nothing of `k` can be left out of a lookup.
pub proof fn lemma_lookup_skip(m: TowerModel, i: int, k: Seq<char>)
    requires
        0 <= i <= m.len(),
        forall|j: int| i <= j < m.len() ==> !(#[trigger] m[j]).contains_key(k),
    ensures
        lookup(m, k) == lookup(m.take(i), k),
        level_of(m, k) == level_of(m.take(i), k),
    decreases m.len() - i,
{
    if i == m.len() {
        assert(m.take(i) =~= m);
    } else {
        assert(!m[m.len() - 1].contains_key(k));
        lemma_lookup_skip(m.drop_last(), i, k);
        assert(m.drop_last().take(i) =~= m.take(i));
    }
}

/// The innermost scope that binds a name is where a lookup finds it.
pub proof fn lemma_level(m: TowerModel, k: Seq<char>)
    ensures
        lookup(m, k) is Some <==> 0 <= level_of(m, k) < m.len(),
        lookup(m, k) is None <==> level_of(m, k) == -1,
        lookup(m, k) is Some ==> m[level_of(m, k)].contains_key(k) && lookup(m, k) == Some(
            m[level_of(m, k)][k],
        ),
    decreases m.len(),
{
    if m.len() > 0 && !m.last().contains_key(k) {
        lemma_level(m.drop_last(), k);
    }
}

/// A name bound in a scope that is then left is bound as before: inside
/// the new scope the new binding is found, and once the scope is closed
/// the stack is what it was.
pub proof fn lemma_shadowing(m: TowerModel, name: Seq<char>, inner: Bound)
    ensures
        !m.push(Map::<Seq<char>, Bound>::empty()).last().contains_key(name),
        lookup(bind_model(m.push(Map::<Seq<char>, Bound>::empty()), name, inner), name) == Some(
            inner,
        ),
        bind_model(m.push(Map::<Seq<char>, Bound>::empty()), name, inner).drop_last() == m,
{
    let entered = m.push(Map::<Seq<char>, Bound>::empty());
    let bound = bind_model(entered, name, inner);
    assert(bound.last().contains_key(name));
    assert(bound.drop_last() =~= m);
}

/// A new binding in the innermost scope makes the count one more.
pub proof fn lemma_bind_size(m: TowerModel, name: Seq<char>, b: Bound)
    requires
        m.len() > 0,
        m.last().dom().finite(),
        !m.last().contains_key(name),
    ensures
        size(bind_model(m, name, b)) == size(m) + 1,
{
    let after = bind_model(m, name, b);
    assert(after.drop_last() =~= m.drop_last());
    assert(after.last().dom() =~= m.last().dom().insert(name));
}

/// Storing an expansion changes no count.
pub proof fn lemma_stored_size(m: TowerModel, name: Seq<char>, c: Sides)
    ensures
        stored(m, name, c).len() == m.len(),
        size(stored(m, name, c)) == size(m),
        fuel_of(stored(m, name, c)) == fuel_of(m),
        forall|i: int| 0 <= i < m.len() ==> #[trigger] stored(m, name, c)[i].dom() == m[i].dom(),
{
    lemma_level(m, name);
    let after = stored(m, name, c);
    assert forall|i: int| 0 <= i < m.len() implies #[trigger] after[i].dom() == m[i].dom() by {
        assert(after[i].dom() =~= m[i].dom());
    }
    lemma_same_size(m, after);
}

/// Stacks whose scopes bind the same names have the same count.
pub proof fn lemma_same_size(a: TowerModel, b: TowerModel)
    requires
        a.len() == b.len(),
        forall|i: int| 0 <= i < a.len() ==> #[trigger] b[i].dom() == a[i].dom(),
    ensures
        size(a) == size(b),
    decreases a.len(),
{
    if a.len() > 0 {
        assert(b[b.len() - 1].dom() == a[a.len() - 1].dom());
        assert forall|i: int| 0 <= i < a.drop_last().len() implies #[trigger] b.drop_last()[i].dom()
            == a.drop_last()[i].dom() by {
            assert(b[i].dom() == a[i].dom());
        }
        lemma_same_size(a.drop_last(), b.drop_last());
    }
}

struct Binding {
    name: String,
    variable: IVariable,
}

spec fn bound_of(b: Binding) -> Bound {
    Bound { variable: b.variable.item@, span: b.variable.span@ }
}

spec fn to_map(s: Seq<Binding>) -> ScopeModel
    decreases s.len(),
{
    if s.len() == 0 {
        Map::empty()
    } else {
        to_map(s.drop_last()).insert(s.last().name@, bound_of(s.last()))
    }
}

spec fn distinct(s: Seq<Binding>) -> bool {
    forall|i: int, j: int|
        0 <= i < j < s.len() ==> (#[trigger] s[i]).name@ != (#[trigger] s[j]).name@
}

proof fn lemma_to_map_skip(s: Seq<Binding>, i: int, k: Seq<char>)
    requires
        0 <= i <= s.len(),
        forall|j: int| i <= j < s.len() ==> (#[trigger] s[j]).name@ != k,
    ensures
        to_map(s).contains_key(k) == to_map(s.take(i)).contains_key(k),
        to_map(s).contains_key(k) ==> to_map(s)[k] == to_map(s.take(i))[k],
    decreases s.len() - i,
{
    if i == s.len() {
        assert(s.take(i) =~= s);
    } else {
        assert(s[s.len() - 1].name@ != k);
        lemma_to_map_skip(s.drop_last(), i, k);
        assert(s.drop_last().take(i) =~= s.take(i));
    }
}

proof fn lemma_to_map_wf(s: Seq<Binding>, k: Seq<char>)
    requires
        forall|i: int| 0 <= i < s.len() ==> (#[trigger] s[i]).variable.item.wf(),
        to_map(s).contains_key(k),
    ensures
        bound_wf(to_map(s)[k].variable),
    decreases s.len(),
{
    if s.len() > 0 {
        if s.last().name@ == k {
            assert(s[s.len() - 1].variable.item.wf());
            lemma_variable_wf(s.last().variable.item);
        } else {
            assert forall|i: int| 0 <= i < s.drop_last().len() implies (
            #[trigger] s.drop_last()[i]).variable.item.wf() by {
                assert(s[i].variable.item.wf());
            }
            lemma_to_map_wf(s.drop_last(), k);
        }
    }
}

proof fn lemma_to_map_has(s: Seq<Binding>, i: int)
    requires
        0 <= i < s.len(),
    ensures
        to_map(s).contains_key(s[i].name@),
    decreases s.len(),
{
    if i < s.len() - 1 {
        lemma_to_map_has(s.drop_last(), i);
    }
}

proof fn lemma_to_map_dom(s: Seq<Binding>)
    requires
        distinct(s),
    ensures
        to_map(s).dom().finite(),
        to_map(s).dom().len() == s.len(),
        forall|k: Seq<char>|
            to_map(s).contains_key(k) ==> exists|i: int|
                0 <= i < s.len() && (#[trigger] s[i]).name@ == k,
    decreases s.len(),
{
    if s.len() > 0 {
        let head = s.drop_last();
        assert(distinct(head)) by {
            assert forall|i: int, j: int| 0 <= i < j < head.len() implies (#[trigger] head[i]).name@
                != (#[trigger] head[j]).name@ by {
                assert(s[i].name@ != s[j].name@);
            }
        }
        lemma_to_map_dom(head);
        let name = s.last().name@;
        if to_map(head).contains_key(name) {
            let i = choose|i: int| 0 <= i < head.len() && (#[trigger] head[i]).name@ == name;
            assert(s[i].name@ != s[s.len() - 1].name@);
        }
        assert(to_map(s).dom() =~= to_map(head).dom().insert(name));
        assert forall|k: Seq<char>| to_map(s).contains_key(k) implies exists|i: int|
            0 <= i < s.len() && (#[trigger] s[i]).name@ == k by {
            if k == name {
                assert(s[s.len() - 1].name@ == k);
            } else {
                let i = choose|i: int| 0 <= i < head.len() && (#[trigger] head[i]).name@ == k;
                assert(s[i].name@ == k);
            }
        }
    } else {
        assert(to_map(s).dom() =~= Set::<Seq<char>>::empty());
    }
}

proof fn lemma_to_map_update(s: Seq<Binding>, i: int, b: Binding)
    requires
        distinct(s),
        0 <= i < s.len(),
        b.name@ == s[i].name@,
    ensures
        to_map(s.update(i, b)) == to_map(s).insert(b.name@, bound_of(b)),
    decreases s.len(),
{
    let after = s.update(i, b);
    if i == s.len() - 1 {
        assert(after.drop_last() =~= s.drop_last());
        assert(to_map(after) =~= to_map(s).insert(b.name@, bound_of(b)));
    } else {
        let head = s.drop_last();
        assert(distinct(head)) by {
            assert forall|x: int, y: int| 0 <= x < y < head.len() implies (#[trigger] head[x]).name@
                != (#[trigger] head[y]).name@ by {
                assert(s[x].name@ != s[y].name@);
            }
        }
        lemma_to_map_update(head, i, b);
        assert(after.drop_last() =~= head.update(i, b));
        assert(after.last() == s.last());
        assert(s[i].name@ != s[s.len() - 1].name@);
        assert(to_map(after) =~= to_map(s).insert(b.name@, bound_of(b)));
    }
}

/// What a well formed value says is well formed.
pub proof fn lemma_variable_wf(v: Variable)
    requires
        v.wf(),
    ensures
        bound_wf(v@),
{
}

/// The names that one lexical block binds.
pub struct Scope {
    bindings: Vec<Binding>,
}

impl View for Scope {
    type V = ScopeModel;

    closed spec fn view(&self) -> ScopeModel {
        to_map(self.bindings@)
    }
}

impl Scope {
    /// Every bound value is well formed, and no name is bound twice.
    pub closed spec fn wf(&self) -> bool {
        &&& forall|i: int|
            0 <= i < self.bindings@.len() ==> (#[trigger] self.bindings@[i]).variable.item.wf()
        &&& distinct(self.bindings@)
    }

    /// What a well formed scope says of a name is well formed, and its
    /// names can be counted.
    pub proof fn lemma_wf(&self, k: Seq<char>)
        requires
            self.wf(),
        ensures
            self@.contains_key(k) ==> bound_wf(self@[k].variable),
            self@.dom().finite(),
    {
        lemma_to_map_dom(self.bindings@);
        if self@.contains_key(k) {
            lemma_to_map_wf(self.bindings@, k);
        }
    }

    fn find(&self, ident: &str) -> (r: Option<usize>)
        ensures
            r is Some <==> self@.contains_key(ident@),
            r matches Some(i) ==> i < self.bindings@.len() && self.bindings@[i as int].name@
                == ident@ && self@[ident@] == bound_of(self.bindings@[i as int]),
    {
        let mut i: usize = self.bindings.len();
        while i > 0
            invariant
                i <= self.bindings@.len(),
                forall|j: int| i <= j < self.bindings@.len() ==> (#[trigger] self.bindings@[j]).name@
                    != ident@,
            decreases i,
        {
            i -= 1;
            if name_equal(self.bindings[i].name.as_str(), ident) {
                proof {
                    let s = self.bindings@;
                    lemma_to_map_skip(s, i as int + 1, ident@);
                    assert(s.take(i as int + 1).drop_last() =~= s.take(i as int));
                }
                return Some(i);
            }
        }
        proof {
            lemma_to_map_skip(self.bindings@, 0, ident@);
        }
        None
    }

    fn bind(&mut self, name: String, variable: IVariable)
        requires
            !old(self)@.contains_key(name@),
        ensures
            final(self)@ == old(self)@.insert(
                name@,
                Bound { variable: variable.item@, span: variable.span@ },
            ),
            old(self).wf() && variable.item.wf() ==> final(self).wf(),
    {
        self.bindings.push(Binding { name, variable });
        proof {
            assert(self.bindings@.drop_last() =~= old(self).bindings@);
            if old(self).wf() && variable.item.wf() {
                assert forall|i: int| 0 <= i < self.bindings@.len() implies (
                #[trigger] self.bindings@[i]).variable.item.wf() by {
                    if i < old(self).bindings@.len() {
                        assert(old(self).bindings@[i].variable.item.wf());
                    }
                }
                assert forall|i: int, j: int| 0 <= i < j < self.bindings@.len() implies (
                #[trigger] self.bindings@[i]).name@ != (#[trigger] self.bindings@[j]).name@ by {
                    if j < old(self).bindings@.len() {
                        assert(old(self).bindings@[i].name@ != old(self).bindings@[j].name@);
                    } else {
                        lemma_to_map_has(old(self).bindings@, i);
                    }
                }
            }
        }
    }

    /// The number of names that the scope binds.
    pub fn len(&self) -> (n: usize)
        requires
            self.wf(),
        ensures
            n == self@.dom().len(),
    {
        proof {
            lemma_to_map_dom(self.bindings@);
        }
        self.bindings.len()
    }

    /// Whether the scope binds `ident`.
    pub fn contains(&self, ident: &str) -> (b: bool)
        ensures
            b == self@.contains_key(ident@),
    {
        self.find(ident).is_some()
    }

    /// What the scope binds `ident` to, where it binds it.
    pub fn get_existing(&self, ident: &str) -> (r: Option<&IVariable>)
        ensures
            r is Some <==> self@.contains_key(ident@),
            r matches Some(v) ==> {
                &&& v.item@ == self@[ident@].variable
                &&& v.span@ == self@[ident@].span
                &&& self.wf() ==> v.item.wf()
            },
    {
        match self.find(ident) {
            Some(i) => Some(&self.bindings[i].variable),
            None => None,
        }
    }

    /// What the scope binds `ident` to, or the failure that it is not
    /// declared, at the place of `ident`.
    pub fn get(&self, ident: &Istr) -> (r: Result<&IVariable, DigifyError>)
        ensures
            r is Ok <==> self@.contains_key(ident.item@),
            r matches Ok(v) ==> {
                &&& v.item@ == self@[ident.item@].variable
                &&& v.span@ == self@[ident.item@].span
                &&& self.wf() ==> v.item.wf()
            },
            r matches Err(e) ==> e@ == (Cause::NotDeclared(ident.item@), ident.span@),
    {
        match self.get_existing(ident.as_str()) {
            Some(v) => Ok(v),
            None => Err(
                DigifyError::new(
                    ErrorKind::VariableNotDeclared(ident.item.clone()),
                    ident.span.duplicate(),
                ),
            ),
        }
    }

    /// Binds `ident` to a new primitive unit shown as `symbole`, unless the
    /// scope already binds that name.
    pub fn define(&mut self, ident: Istr, symbole: &str) -> (r: Result<(), DigifyError>)
        ensures
            r is Ok <==> !old(self)@.contains_key(ident.item@),
            r is Ok ==> final(self)@ == old(self)@.insert(
                ident.item@,
                defined(ident.item@, symbole@, ident.span@),
            ),
            r matches Err(e) ==> final(self)@ == old(self)@ && e@ == (
                Cause::AlreadyDeclared(ident.item@),
                ident.span@,
            ),
            old(self).wf() ==> final(self).wf(),
    {
        if self.contains(ident.as_str()) {
            return Err(
                DigifyError::new(ErrorKind::VariableAlreadyDeclared(ident.item), ident.span),
            );
        }
        let made = Axiom::new(ident.as_str(), symbole);
        let variable = Item::new(Variable::Axiom(made), ident.span);
        self.bind(ident.item, variable);
        Ok(())
    }

    /// Binds `ident` to `unit` as it is, unless the scope already binds
    /// that name.
    pub fn insert(&mut self, ident: Istr, unit: Unit) -> (r: Result<(), DigifyError>)
        ensures
            r is Ok <==> !old(self)@.contains_key(ident.item@),
            r is Ok ==> final(self)@ == old(self)@.insert(
                ident.item@,
                inserted(unit@, ident.span@),
            ),
            r matches Err(e) ==> final(self)@ == old(self)@ && e@ == (
                Cause::AlreadyDeclared(ident.item@),
                ident.span@,
            ),
            old(self).wf() && unit.wf() ==> final(self).wf(),
    {
        if self.contains(ident.as_str()) {
            return Err(
                DigifyError::new(ErrorKind::VariableAlreadyDeclared(ident.item), ident.span),
            );
        }
        let bound = Item::new(Variable::Unit(unit), ident.span);
        self.bind(ident.item, bound);
        Ok(())
    }

    /// Stores `canon` as the expansion of the unit that `ident` is bound
    /// to; nothing changes where `ident` is bound to a primitive unit.
    fn store(&mut self, ident: &str, canon: Unit)
        requires
            old(self).wf(),
            old(self)@.contains_key(ident@),
            canon.reduced(),
            canon.cached() is None,
        ensures
            final(self).wf(),
            final(self)@ == old(self)@.insert(
                ident@,
                with_expansion(old(self)@[ident@], canon.sides()),
            ),
    {
        let at = self.find(ident).unwrap();
        let ghost before = self.bindings@;
        let held = self.bindings.remove(at);
        let Binding { name, variable } = held;
        let Item { item, span } = variable;
        let changed = match item {
            Variable::Unit(unit) => {
                let mut unit = unit;
                unit.remember(canon);
                Variable::Unit(unit)
            },
            Variable::Axiom(prim) => Variable::Axiom(prim),
        };
        let renewed = Binding { name, variable: Item { item: changed, span } };
        self.bindings.insert(at, renewed);
        proof {
            assert(self.bindings@ =~= before.update(at as int, renewed));
            lemma_to_map_update(before, at as int, renewed);
            assert(bound_of(renewed) == with_expansion(old(self)@[ident@], canon.sides()));
            assert forall|i: int| 0 <= i < self.bindings@.len() implies (
            #[trigger] self.bindings@[i]).variable.item.wf() by {
                if i != at {
                    assert(before[i].variable.item.wf());
                } else {
                    assert(before[at as int].variable.item.wf());
                }
            }
            assert forall|i: int, j: int| 0 <= i < j < self.bindings@.len() implies (
            #[trigger] self.bindings@[i]).name@ != (#[trigger] self.bindings@[j]).name@ by {
                assert(before[i].name@ != before[j].name@);
            }
        }
    }
}

impl Default for Scope {
    /// A scope that binds nothing.
    fn default() -> (r: Scope)
        ensures
            r@ == Map::<Seq<char>, Bound>::empty(),
            r.wf(),
    {
        Scope { bindings: Vec::new() }
    }
}

/// The stack of scopes of the blocks that are open, innermost last.
pub struct TowerScope {
    scopes: Vec<Scope>,
}

impl View for TowerScope {
    type V = TowerModel;

    closed spec fn view(&self) -> TowerModel {
        Seq::new(self.scopes@.len(), |i: int| self.scopes@[i]@)
    }
}

impl TowerScope {
    /// Every bound value of every scope is well formed.
    pub closed spec fn wf(&self) -> bool {
        forall|i: int| 0 <= i < self.scopes@.len() ==> (#[trigger] self.scopes@[i]).wf()
    }

    /// What a well formed stack says is well formed.
    pub proof fn lemma_wf(&self)
        requires
            self.wf(),
        ensures
            tower_wf(self@),
    {
        assert forall|i: int, k: Seq<char>|
            0 <= i < self@.len() && #[trigger] self@[i].contains_key(k) implies bound_wf(
            self@[i][k].variable,
        ) by {
            assert(self.scopes@[i].wf());
            self.scopes@[i].lemma_wf(k);
        }
    }

    /// Whether `k` is bound in some scope of the stack.
    pub open spec fn declared(&self, k: Seq<char>) -> bool {
        lookup(self@, k) is Some
    }

    /// The number of open scopes.
    pub fn depth(&self) -> (n: usize)
        ensures
            n == self@.len(),
    {
        self.scopes.len()
    }

    /// How many bound units may be followed, one into the next: as many as
    /// the stack has bindings.
    pub fn fuel(&self) -> (n: usize)
        requires
            self.wf(),
        ensures
            n == fuel_of(self@),
    {
        let mut n: usize = 0;
        let mut i: usize = 0;
        proof {
            assert(self@.take(0) =~= Seq::<ScopeModel>::empty());
        }
        while i < self.scopes.len()
            invariant
                self.wf(),
                i <= self@.len(),
                n == fuel_of(self@.take(i as int)),
            decreases self@.len() - i,
        {
            proof {
                assert(self.scopes@[i as int].wf());
                assert(self@.take(i as int + 1).drop_last() =~= self@.take(i as int));
                assert(self@.take(i as int + 1).last() == self@[i as int]);
            }
            let more = self.scopes[i].len();
            n = match n.checked_add(more) {
                Some(sum) => sum,
                None => usize::MAX,
            };
            i += 1;
        }
        proof {
            assert(self@.take(self@.len() as int) =~= self@);
        }
        n
    }

    /// The index of the innermost scope that binds `ident`.
    fn locate(&self, ident: &str) -> (r: Option<usize>)
        ensures
            r is Some <==> lookup(self@, ident@) is Some,
            r matches Some(i) ==> i == level_of(self@, ident@) && i < self@.len()
                && self@[i as int].contains_key(ident@) && lookup(self@, ident@) == Some(
                self@[i as int][ident@],
            ),
    {
        let mut i: usize = self.scopes.len();
        while i > 0
            invariant
                i <= self@.len(),
                forall|j: int| i <= j < self@.len() ==> !(#[trigger] self@[j]).contains_key(ident@),
            decreases i,
        {
            i -= 1;
            if self.scopes[i].contains(ident) {
                proof {
                    lemma_lookup_skip(self@, i as int + 1, ident@);
                    assert(self@.take(i as int + 1).last() == self@[i as int]);
                }
                return Some(i);
            }
            assert(!self@[i as int].contains_key(ident@));
        }
        proof {
            lemma_lookup_skip(self@, 0, ident@);
        }
        None
    }

    /// Whether `ident` is bound in the current scope or in one around it.
    pub fn contains(&self, ident: &str) -> (b: bool)
        ensures
            b == self.declared(ident@),
    {
        self.locate(ident).is_some()
    }

    /// The innermost value bound to `ident`, where there is one.
    pub fn get_existing(&self, ident: &str) -> (r: Option<&IVariable>)
        ensures
            r is Some <==> self.declared(ident@),
            r matches Some(v) ==> {
                &&& v.item@ == (lookup(self@, ident@)->0).variable
                &&& v.span@ == (lookup(self@, ident@)->0).span
                &&& self.wf() ==> v.item.wf()
            },
    {
        match self.locate(ident) {
            Some(i) => {
                proof {
                    if self.wf() {
                        assert(self.scopes@[i as int].wf());
                    }
                }
                self.scopes[i].get_existing(ident)
            },
            None => None,
        }
    }

    /// The innermost value bound to `ident`, or the failure that it is not
    /// declared, at the place of `ident`.
    pub fn get(&self, ident: &Istr) -> (r: Result<&IVariable, DigifyError>)
        ensures
            r is Ok <==> self.declared(ident.item@),
            r matches Ok(v) ==> {
                &&& v.item@ == (lookup(self@, ident.item@)->0).variable
                &&& v.span@ == (lookup(self@, ident.item@)->0).span
                &&& self.wf() ==> v.item.wf()
            },
            r matches Err(e) ==> e@ == (Cause::NotDeclared(ident.item@), ident.span@),
    {
        match self.get_existing(ident.as_str()) {
            Some(v) => Ok(v),
            None => Err(
                DigifyError::new(
                    ErrorKind::VariableNotDeclared(ident.item.clone()),
                    ident.span.duplicate(),
                ),
            ),
        }
    }

    /// Opens a new scope that binds nothing.
    pub fn enter_scope(&mut self)
        ensures
            final(self)@ == old(self)@.push(Map::<Seq<char>, Bound>::empty()),
            size(final(self)@) == size(old(self)@),
            old(self).wf() ==> final(self).wf(),
    {
        self.scopes.push(Scope::default());
        proof {
            assert(self@ =~= old(self)@.push(Map::<Seq<char>, Bound>::empty()));
            assert(self@.drop_last() =~= old(self)@);
            assert(self@.last().dom() =~= Set::<Seq<char>>::empty());
            if old(self).wf() {
                assert forall|i: int| 0 <= i < self.scopes@.len() implies (
                #[trigger] self.scopes@[i]).wf() by {
                    if i < old(self).scopes@.len() {
                        assert(old(self).scopes@[i].wf());
                    }
                }
            }
        }
    }

    /// Closes the innermost scope, with all that it binds. With no scope
    /// open nothing happens.
    pub fn exit_scope(&mut self)
        ensures
            final(self)@ == if old(self)@.len() > 0 {
                old(self)@.drop_last()
            } else {
                old(self)@
            },
            size(final(self)@) <= size(old(self)@),
            old(self).wf() ==> final(self).wf(),
    {
        self.scopes.pop();
        proof {
            assert(self@ =~= if old(self)@.len() > 0 {
                old(self)@.drop_last()
            } else {
                old(self)@
            });
            if old(self).wf() {
                assert forall|i: int| 0 <= i < self.scopes@.len() implies (
                #[trigger] self.scopes@[i]).wf() by {
                    assert(old(self).scopes@[i].wf());
                }
            }
        }
    }

    /// Binds `ident` in the current scope to a new primitive unit shown as
    /// `symbole`. Fails where the current scope already binds that name; a
    /// binding of the name in a scope around it is shadowed.
    pub fn define(&mut self, ident: Istr, symbole: &str) -> (r: Result<(), DigifyError>)
        requires
            old(self)@.len() > 0,
        ensures
            r is Ok <==> !old(self)@.last().contains_key(ident.item@),
            r is Ok ==> final(self)@ == bind_model(
                old(self)@,
                ident.item@,
                defined(ident.item@, symbole@, ident.span@),
            ),
            r matches Err(e) ==> final(self)@ == old(self)@ && e@ == (
                Cause::AlreadyDeclared(ident.item@),
                ident.span@,
            ),
            old(self).wf() ==> final(self).wf(),
            old(self).wf() && r is Ok ==> size(final(self)@) == size(old(self)@) + 1,
    {
        proof {
            if old(self).wf() {
                assert(self.scopes@[self.scopes@.len() - 1].wf());
                self.scopes@[self.scopes@.len() - 1].lemma_wf(ident.item@);
                assert(self@.last() == self.scopes@[self.scopes@.len() - 1]@);
                if !self@.last().contains_key(ident.item@) {
                    lemma_bind_size(
                        self@,
                        ident.item@,
                        defined(ident.item@, symbole@, ident.span@),
                    );
                }
            }
        }
        let mut scope = self.scopes.pop().unwrap();
        let ghost inner = scope@;
        let r = scope.define(ident, symbole);
        self.scopes.push(scope);
        proof {
            assert(inner == old(self)@.last());
            if r is Ok {
                assert(self@ =~= bind_model(
                    old(self)@,
                    ident.item@,
                    defined(ident.item@, symbole@, ident.span@),
                ));
            } else {
                assert(self@ =~= old(self)@);
            }
            if old(self).wf() {
                assert forall|i: int| 0 <= i < self.scopes@.len() implies (
                #[trigger] self.scopes@[i]).wf() by {
                    assert(old(self).scopes@[i].wf());
                }
            }
        }
        r
    }

    /// Binds `ident` in the current scope to `unit`, as it is: its
    /// expansion is taken when it is first asked for. Fails where the
    /// current scope already binds the name, and there only; a binding of
    /// the name in a scope around it is shadowed.
    pub fn insert(&mut self, ident: Istr, unit: Unit) -> (r: Result<(), DigifyError>)
        requires
            old(self)@.len() > 0,
        ensures
            r is Ok <==> !old(self)@.last().contains_key(ident.item@),
            r is Ok ==> final(self)@ == bind_model(
                old(self)@,
                ident.item@,
                inserted(unit@, ident.span@),
            ),
            r matches Err(e) ==> final(self)@ == old(self)@ && e@ == (
                Cause::AlreadyDeclared(ident.item@),
                ident.span@,
            ),
            old(self).wf() && unit.wf() ==> final(self).wf(),
            old(self).wf() && r is Ok ==> size(final(self)@) == size(old(self)@) + 1,
    {
        proof {
            if old(self).wf() {
                assert(self.scopes@[self.scopes@.len() - 1].wf());
                self.scopes@[self.scopes@.len() - 1].lemma_wf(ident.item@);
                assert(self@.last() == self.scopes@[self.scopes@.len() - 1]@);
                if !self@.last().contains_key(ident.item@) {
                    lemma_bind_size(self@, ident.item@, inserted(unit@, ident.span@));
                }
            }
        }
        let mut scope = self.scopes.pop().unwrap();
        let ghost inner = scope@;
        let r = scope.insert(ident, unit);
        self.scopes.push(scope);
        proof {
            assert(inner == old(self)@.last());
            if r is Ok {
                assert(self@ =~= bind_model(
                    old(self)@,
                    ident.item@,
                    inserted(unit@, ident.span@),
                ));
            } else {
                assert(self@ =~= old(self)@);
            }
            if old(self).wf() && unit.wf() {
                assert forall|i: int| 0 <= i < self.scopes@.len() implies (
                #[trigger] self.scopes@[i]).wf() by {
                    assert(old(self).scopes@[i].wf());
                }
            }
        }
        r
    }

    /// Stores `canon` as the expansion of the unit that the innermost
    /// binding of `ident` holds.
    pub(crate) fn store(&mut self, ident: &str, canon: Unit)
        requires
            old(self).wf(),
            canon.reduced(),
            canon.cached() is None,
        ensures
            final(self).wf(),
            final(self)@ == stored(old(self)@, ident@, canon.sides()),
    {
        proof {
            lemma_level(self@, ident@);
        }
        match self.locate(ident) {
            Some(level) => {
                let ghost before = self@;
                proof {
                    assert(self.scopes@[level as int].wf());
                }
                let mut scope = self.scopes.remove(level);
                scope.store(ident, canon);
                self.scopes.insert(level, scope);
                proof {
                    assert(self@ =~= stored(before, ident@, canon.sides()));
                    assert forall|i: int| 0 <= i < self.scopes@.len() implies (
                    #[trigger] self.scopes@[i]).wf() by {
                        if i != level {
                            assert(old(self).scopes@[i].wf());
                        }
                    }
                }
            },
            None => {},
        }
    }

    /// Whether the current scope itself binds `ident`.
    pub fn declared_here(&self, ident: &str) -> (b: bool)
        ensures
            b == (self@.len() > 0 && self@.last().contains_key(ident@)),
    {
        let n = self.scopes.len();
        if n == 0 {
            false
        } else {
            self.scopes[n - 1].contains(ident)
        }
    }
}

impl Default for TowerScope {
    /// The stack with no scope open.
    fn default() -> (r: TowerScope)
        ensures
            r@ == Seq::<ScopeModel>::empty(),
            size(r@) == 0,
            r.wf(),
    {
        let r = TowerScope { scopes: Vec::new() };
        assert(r@ =~= Seq::<ScopeModel>::empty());
        r
    }
}

} // verus!
