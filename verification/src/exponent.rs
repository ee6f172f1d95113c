//! One side of a unit fraction: identifiers with strictly positive powers.
//!
//! The map is kept as two aligned vectors sorted by identifier, so that two
//! maps with the same contents have the same representation and the entries
//! come out in lexicographic order.

use crate::ident::{
    lemma_name_lt_total, lemma_name_lt_transitive, name_equal, name_less, name_lt,
};
use vstd::prelude::*;

verus! {

/// The mathematical content of an exponent map: its entries in order.
pub type Model = Seq<(Seq<char>, nat)>;

/// `k` names one of the entries of `s`.
pub open spec fn has_key(s: Model, k: Seq<char>) -> bool {
    exists|i: int| 0 <= i < s.len() && (#[trigger] s[i]).0 == k
}

/// An index at which `k` stands in `s`, where it has an entry.
pub open spec fn index_of(s: Model, k: Seq<char>) -> int {
    choose|i: int| 0 <= i < s.len() && (#[trigger] s[i]).0 == k
}

/// The power that `s` gives to `k`; zero where `k` has no entry.
pub open spec fn power_in(s: Model, k: Seq<char>) -> nat {
    if has_key(s, k) {
        s[index_of(s, k)].1
    } else {
        0
    }
}

/// The entries stand in strictly increasing order of their identifiers.
pub open spec fn sorted(s: Model) -> bool {
    forall|i: int, j: int|
        0 <= i < j < s.len() ==> name_lt((#[trigger] s[i]).0, (#[trigger] s[j]).0)
}

/// Sorted, and every stored power is at least one and fits the machine word.
pub open spec fn valid_model(s: Model) -> bool {
    &&& sorted(s)
    &&& forall|i: int| 0 <= i < s.len() ==> 1 <= (#[trigger] s[i]).1 <= u32::MAX
}

/// In a valid model an identifier stands at one index only.
pub proof fn lemma_key_unique(s: Model, i: int, j: int)
    requires
        sorted(s),
        0 <= i < s.len(),
        0 <= j < s.len(),
        s[i].0 == s[j].0,
    ensures
        i == j,
{
    lemma_name_lt_total(s[i].0, s[j].0);
}

/// The power of the identifier at index `i` is the power stored there.
pub proof fn lemma_power_at(s: Model, i: int)
    requires
        sorted(s),
        0 <= i < s.len(),
    ensures
        has_key(s, s[i].0),
        power_in(s, s[i].0) == s[i].1,
{
    let k = s[i].0;
    assert(0 <= i < s.len() && s[i].0 == k);
    let j = index_of(s, k);
    lemma_key_unique(s, i, j);
}

/// An identifier has a nonzero power exactly when it has an entry, and no
/// power exceeds the machine word.
pub proof fn lemma_power_positive(s: Model, k: Seq<char>)
    requires
        valid_model(s),
    ensures
        has_key(s, k) <==> power_in(s, k) > 0,
        power_in(s, k) <= u32::MAX,
{
    if has_key(s, k) {
        let j = index_of(s, k);
        lemma_power_at(s, j);
    }
}

/// A valid model that gives no identifier a power has no entry.
pub proof fn lemma_no_power(s: Model)
    requires
        valid_model(s),
        forall|k: Seq<char>| power_in(s, k) == 0,
    ensures
        s.len() == 0,
{
    if s.len() > 0 {
        lemma_power_at(s, 0);
    }
}

proof fn lemma_same_prefix(a: Model, b: Model, n: int)
    requires
        valid_model(a),
        valid_model(b),
        forall|k: Seq<char>| power_in(a, k) == power_in(b, k),
        0 <= n <= a.len(),
    ensures
        n <= b.len(),
        forall|i: int| 0 <= i < n ==> a[i] == b[i],
    decreases n,
{
    if n > 0 {
        lemma_same_prefix(a, b, n - 1);
        let i = n - 1;
        let k = a[i].0;
        lemma_power_at(a, i);
        lemma_power_positive(b, k);
        let j = index_of(b, k);
        lemma_power_at(b, j);
        if j < i {
            assert(a[j] == b[j]);
            lemma_key_unique(a, i, j);
        }
        if j > i {
            let k2 = b[i].0;
            lemma_power_at(b, i);
            lemma_power_positive(a, k2);
            let m = index_of(a, k2);
            if m < i {
                assert(a[m] == b[m]);
                lemma_key_unique(b, i, m);
            }
            assert(name_lt(b[i].0, b[j].0));
            if m > i {
                assert(name_lt(a[i].0, a[m].0));
            }
            lemma_name_lt_total(k, k2);
        }
    }
}

/// Two valid models that give every identifier the same power are equal.
pub proof fn lemma_model_ext(a: Model, b: Model)
    requires
        valid_model(a),
        valid_model(b),
        forall|k: Seq<char>| power_in(a, k) == power_in(b, k),
    ensures
        a == b,
{
    lemma_same_prefix(a, b, a.len() as int);
    lemma_same_prefix(b, a, b.len() as int);
    assert(a =~= b);
}

/// A map from identifiers to strictly positive powers.
#[derive(Debug)]
pub struct ExponentMap {
    names: Vec<String>,
    powers: Vec<u32>,
}

impl View for ExponentMap {
    type V = Model;

    closed spec fn view(&self) -> Model {
        Seq::new(self.names@.len(), |i: int| (self.names@[i]@, self.powers@[i] as nat))
    }
}

impl ExponentMap {
    /// The two vectors have the same length.
    pub closed spec fn aligned(&self) -> bool {
        self.names@.len() == self.powers@.len()
    }

    /// The representation invariant.
    pub open spec fn wf(&self) -> bool {
        self.aligned() && valid_model(self@)
    }

    /// The power of `k` in this map; zero where `k` is absent.
    #[verifier::inline]
    pub open spec fn power_of(&self, k: Seq<char>) -> nat {
        power_in(self@, k)
    }

    /// The empty map.
    pub fn new() -> (r: ExponentMap)
        ensures
            r.wf(),
            r@ == Seq::<(Seq<char>, nat)>::empty(),
    {
        let r = ExponentMap { names: Vec::new(), powers: Vec::new() };
        assert(r@ =~= Seq::<(Seq<char>, nat)>::empty());
        r
    }

    /// The number of entries.
    pub fn len(&self) -> (n: usize)
        requires
            self.wf(),
        ensures
            n == self@.len(),
    {
        self.names.len()
    }

    /// Whether the map has no entry.
    pub fn is_empty(&self) -> (b: bool)
        requires
            self.wf(),
        ensures
            b == (self@.len() == 0),
    {
        self.names.len() == 0
    }

    /// The identifier of the entry at index `i`, in lexicographic order.
    pub fn name_at(&self, i: usize) -> (r: &String)
        requires
            self.wf(),
            i < self@.len(),
        ensures
            r@ == self@[i as int].0,
    {
        &self.names[i]
    }

    /// The power of the entry at index `i`.
    pub fn power_at(&self, i: usize) -> (r: u32)
        requires
            self.wf(),
            i < self@.len(),
        ensures
            r == self@[i as int].1,
            r >= 1,
    {
        self.powers[i]
    }

    /// Finds where `name` stands or would stand.
    fn find(&self, name: &str) -> (r: (usize, bool))
        requires
            self.wf(),
        ensures
            r.0 <= self@.len(),
            forall|j: int| 0 <= j < r.0 ==> name_lt((#[trigger] self@[j]).0, name@),
            r.1 ==> r.0 < self@.len() && self@[r.0 as int].0 == name@,
            !r.1 ==> !has_key(self@, name@),
            !r.1 && r.0 < self@.len() ==> name_lt(name@, self@[r.0 as int].0),
    {
        let mut i: usize = 0;
        while i < self.names.len() && name_less(self.names[i].as_str(), name)
            invariant
                self.wf(),
                i <= self@.len(),
                forall|j: int| 0 <= j < i ==> name_lt((#[trigger] self@[j]).0, name@),
            decreases self@.len() - i,
        {
            i += 1;
        }
        let found = i < self.names.len() && name_equal(self.names[i].as_str(), name);
        proof {
            if !found {
                if i < self@.len() {
                    lemma_name_lt_total(self@[i as int].0, name@);
                }
                assert forall|j: int| 0 <= j < self@.len() implies (#[trigger] self@[j]).0
                    != name@ by {
                    if j < i {
                        lemma_name_lt_total(self@[j].0, name@);
                    } else if j == i {
                    } else {
                        assert(name_lt(self@[i as int].0, self@[j].0));
                        lemma_name_lt_transitive(name@, self@[i as int].0, self@[j].0);
                        lemma_name_lt_total(name@, self@[j].0);
                    }
                }
            }
        }
        (i, found)
    }

    /// The power of `name`; zero where it has no entry.
    pub fn get(&self, name: &str) -> (p: u32)
        requires
            self.wf(),
        ensures
            p == self.power_of(name@),
    {
        let (i, found) = self.find(name);
        if found {
            proof {
                lemma_power_at(self@, i as int);
            }
            self.powers[i]
        } else {
            0
        }
    }

    /// Whether `name` has an entry.
    pub fn contains_key(&self, name: &str) -> (b: bool)
        requires
            self.wf(),
        ensures
            b == has_key(self@, name@),
            b == (self.power_of(name@) > 0),
    {
        let (_i, found) = self.find(name);
        proof {
            lemma_power_positive(self@, name@);
        }
        found
    }

    /// Sets the power of `name`, dropping its entry where the power is zero.
    pub fn put(&mut self, name: &str, power: u32)
        requires
            old(self).wf(),
        ensures
            final(self).wf(),
            forall|k: Seq<char>|
                final(self).power_of(k) == if k == name@ {
                    power as nat
                } else {
                    old(self).power_of(k)
                },
    {
        let (p, found) = self.find(name);
        let ghost before = self@;
        if found {
            if power > 0 {
                self.powers.set(p, power);
                proof {
                    let after = self@;
                    assert(after.len() == before.len());
                    assert forall|i: int| 0 <= i < after.len() implies (#[trigger] after[i]).0
                        == before[i].0 by {}
                    assert(sorted(after)) by {
                        assert forall|i: int, j: int| 0 <= i < j < after.len() implies name_lt(
                            (#[trigger] after[i]).0,
                            (#[trigger] after[j]).0,
                        ) by {
                            assert(name_lt(before[i].0, before[j].0));
                        }
                    }
                    assert forall|i: int| 0 <= i < after.len() implies 1 <= (
                    #[trigger] after[i]).1 <= u32::MAX by {
                        if i != p {
                            assert(after[i].1 == before[i].1);
                        }
                    }
                    assert forall|k: Seq<char>| power_in(after, k) == if k == name@ {
                        power as nat
                    } else {
                        power_in(before, k)
                    } by {
                        if k == name@ {
                            lemma_power_at(after, p as int);
                        } else if has_key(before, k) {
                            let j = index_of(before, k);
                            lemma_power_at(before, j);
                            assert(after[j].0 == k);
                            lemma_power_at(after, j);
                        } else {
                            if has_key(after, k) {
                                let j = index_of(after, k);
                                assert(before[j].0 == k);
                            }
                        }
                    }
                }
            } else {
                self.names.remove(p);
                self.powers.remove(p);
                proof {
                    let after = self@;
                    assert(after.len() == before.len() - 1);
                    assert forall|i: int| 0 <= i < after.len() implies #[trigger] after[i] == (
                    if i < p {
                        before[i]
                    } else {
                        before[i + 1]
                    }) by {}
                    assert(sorted(after)) by {
                        assert forall|i: int, j: int| 0 <= i < j < after.len() implies name_lt(
                            (#[trigger] after[i]).0,
                            (#[trigger] after[j]).0,
                        ) by {
                            let i2 = if i < p { i } else { i + 1 };
                            let j2 = if j < p { j } else { j + 1 };
                            assert(name_lt(before[i2].0, before[j2].0));
                        }
                    }
                    assert forall|i: int| 0 <= i < after.len() implies 1 <= (
                    #[trigger] after[i]).1 <= u32::MAX by {
                        let i2 = if i < p { i } else { i + 1 };
                        assert(after[i] == before[i2]);
                    }
                    assert forall|k: Seq<char>| power_in(after, k) == if k == name@ {
                        power as nat
                    } else {
                        power_in(before, k)
                    } by {
                        if has_key(after, k) {
                            let j = index_of(after, k);
                            let j2 = if j < p { j } else { j + 1 };
                            assert(before[j2].0 == k);
                            if k == name@ {
                                lemma_key_unique(before, j2, p as int);
                            }
                            lemma_power_at(before, j2);
                            lemma_power_at(after, j);
                        } else if has_key(before, k) {
                            let j = index_of(before, k);
                            if j != p {
                                let j2 = if j < p { j } else { j - 1 };
                                assert(after[j2].0 == k);
                            }
                        }
                    }
                }
            }
        } else if power > 0 {
            self.names.insert(p, name.to_owned());
            self.powers.insert(p, power);
            proof {
                let after = self@;
                assert(after.len() == before.len() + 1);
                assert(after[p as int] == (name@, power as nat));
                assert forall|i: int| 0 <= i < after.len() && i != p implies #[trigger] after[i]
                    == (if i < p {
                    before[i]
                } else {
                    before[i - 1]
                }) by {}
                assert(sorted(after)) by {
                    assert forall|i: int, j: int| 0 <= i < j < after.len() implies name_lt(
                        (#[trigger] after[i]).0,
                        (#[trigger] after[j]).0,
                    ) by {
                        let i2 = if i < p { i } else { i - 1 };
                        let j2 = if j < p { j } else { j - 1 };
                        if i == p {
                            assert(name_lt(name@, before[p as int].0));
                            if j2 > p {
                                assert(name_lt(before[p as int].0, before[j2].0));
                                lemma_name_lt_transitive(name@, before[p as int].0, before[j2].0);
                            }
                        } else if j == p {
                            assert(name_lt(before[i2].0, name@));
                        } else {
                            assert(name_lt(before[i2].0, before[j2].0));
                        }
                    }
                }
                assert forall|i: int| 0 <= i < after.len() implies 1 <= (#[trigger] after[i]).1
                    <= u32::MAX by {
                    if i != p {
                        let i2 = if i < p { i } else { i - 1 };
                        assert(after[i] == before[i2]);
                    }
                }
                assert forall|k: Seq<char>| power_in(after, k) == if k == name@ {
                    power as nat
                } else {
                    power_in(before, k)
                } by {
                    if k == name@ {
                        lemma_power_at(after, p as int);
                    } else if has_key(before, k) {
                        let j = index_of(before, k);
                        let j2 = if j < p { j } else { j + 1 };
                        assert(after[j2] == before[j]);
                        lemma_power_at(before, j);
                        lemma_power_at(after, j2);
                    } else {
                        if has_key(after, k) {
                            let j = index_of(after, k);
                            let j2 = if j < p { j } else { j - 1 };
                            assert(before[j2].0 == k);
                        }
                    }
                }
            }
        } else {
            proof {
                lemma_power_positive(before, name@);
            }
        }
    }

    /// Whether both maps hold the same entries.
    pub fn same(&self, other: &ExponentMap) -> (b: bool)
        requires
            self.wf(),
            other.wf(),
        ensures
            b == (self@ == other@),
            b == (forall|k: Seq<char>| self.power_of(k) == other.power_of(k)),
    {
        proof {
            if forall|k: Seq<char>| self.power_of(k) == other.power_of(k) {
                lemma_model_ext(self@, other@);
            }
        }
        if self.names.len() != other.names.len() {
            return false;
        }
        let mut i: usize = 0;
        while i < self.names.len()
            invariant
                self.wf(),
                other.wf(),
                i <= self@.len(),
                self@.len() == other@.len(),
                forall|j: int| 0 <= j < i ==> self@[j] == other@[j],
                (forall|k: Seq<char>| self.power_of(k) == other.power_of(k)) ==> self@ == other@,
            decreases self@.len() - i,
        {
            if !name_equal(self.names[i].as_str(), other.names[i].as_str())
                || self.powers[i] != other.powers[i] {
                assert(self@[i as int] != other@[i as int]);
                return false;
            }
            i += 1;
        }
        assert(self@ =~= other@);
        true
    }

    /// Every power multiplied by `factor`; with a factor of zero nothing is
    /// left. `None` where a power would leave the machine word.
    pub fn scaled(&self, factor: u32) -> (r: Option<ExponentMap>)
        requires
            self.wf(),
        ensures
            r is Some <==> forall|k: Seq<char>| #[trigger] self.power_of(k) * factor <= u32::MAX,
            r matches Some(m) ==> m.wf() && forall|k: Seq<char>|
                #[trigger] m.power_of(k) == self.power_of(k) * factor,
    {
        let mut names: Vec<String> = Vec::new();
        let mut powers: Vec<u32> = Vec::new();
        if factor == 0 {
            let r = ExponentMap { names, powers };
            proof {
                assert(r@ =~= Seq::<(Seq<char>, nat)>::empty());
                assert forall|k: Seq<char>| #[trigger]
                    power_in(r@, k) == power_in(self@, k) * factor by {
                    assert(!has_key(r@, k));
                    assert(power_in(self@, k) * factor == 0) by (nonlinear_arith)
                        requires
                            factor == 0,
                    ;
                }
            }
            return Some(r);
        }
        let mut i: usize = 0;
        while i < self.names.len()
            invariant
                self.wf(),
                factor >= 1,
                i <= self@.len(),
                names@.len() == i,
                powers@.len() == i,
                forall|j: int| 0 <= j < i ==> (#[trigger] names@[j])@ == self@[j].0,
                forall|j: int| 0 <= j < i ==> (#[trigger] powers@[j]) == self@[j].1 * factor,
            decreases self@.len() - i,
        {
            let name = self.names[i].clone();
            assert(name@ == self@[i as int].0);
            match self.powers[i].checked_mul(factor) {
                Some(product) => {
                    names.push(name);
                    powers.push(product);
                },
                None => {
                    proof {
                        lemma_power_at(self@, i as int);
                        assert(power_in(self@, self@[i as int].0) * factor > u32::MAX);
                    }
                    return None;
                },
            }
            i += 1;
        }
        let r = ExponentMap { names, powers };
        proof {
            assert(r@.len() == self@.len());
            assert forall|j: int| 0 <= j < r@.len() implies (#[trigger] r@[j]).0 == self@[j].0
                && r@[j].1 == self@[j].1 * factor by {}
            assert(sorted(r@)) by {
                assert forall|a: int, b: int| 0 <= a < b < r@.len() implies name_lt(
                    (#[trigger] r@[a]).0,
                    (#[trigger] r@[b]).0,
                ) by {
                    assert(name_lt(self@[a].0, self@[b].0));
                }
            }
            assert forall|j: int| 0 <= j < r@.len() implies 1 <= (#[trigger] r@[j]).1
                <= u32::MAX by {
                assert(1 <= self@[j].1);
                assert(self@[j].1 * factor >= 1) by (nonlinear_arith)
                    requires
                        self@[j].1 >= 1,
                        factor >= 1,
                ;
            }
            assert forall|k: Seq<char>| #[trigger]
                power_in(r@, k) == power_in(self@, k) * factor by {
                if has_key(self@, k) {
                    let j = index_of(self@, k);
                    lemma_power_at(self@, j);
                    assert(r@[j].0 == k);
                    lemma_power_at(r@, j);
                } else if has_key(r@, k) {
                    let j = index_of(r@, k);
                    assert(self@[j].0 == k);
                } else {
                    assert(0 * factor == 0);
                }
            }
            assert forall|k: Seq<char>| #[trigger] power_in(self@, k) * factor <= u32::MAX by {
                lemma_power_positive(r@, k);
            }
        }
        Some(r)
    }

    /// A copy of this map.
    pub fn duplicate(&self) -> (r: ExponentMap)
        requires
            self.wf(),
        ensures
            r.wf(),
            r@ == self@,
    {
        let mut names: Vec<String> = Vec::new();
        let mut powers: Vec<u32> = Vec::new();
        let mut i: usize = 0;
        while i < self.names.len()
            invariant
                self.wf(),
                i <= self@.len(),
                names@.len() == i,
                powers@.len() == i,
                forall|j: int| 0 <= j < i ==> (#[trigger] names@[j])@ == self@[j].0,
                forall|j: int| 0 <= j < i ==> (#[trigger] powers@[j]) == self@[j].1,
            decreases self@.len() - i,
        {
            let name = self.names[i].clone();
            assert(name@ == self@[i as int].0);
            names.push(name);
            powers.push(self.powers[i]);
            i += 1;
        }
        let r = ExponentMap { names, powers };
        assert(r@ =~= self@);
        r
    }
}

/// The signed exponent of `k` in the fraction `top / bottom`.
pub open spec fn net(top: Model, bottom: Model, k: Seq<char>) -> int {
    power_in(top, k) - power_in(bottom, k)
}

/// No identifier has an entry on both sides.
pub open spec fn disjoint(top: Model, bottom: Model) -> bool {
    forall|k: Seq<char>|
        #![trigger power_in(top, k)]
        #![trigger power_in(bottom, k)]
        power_in(top, k) == 0 || power_in(bottom, k) == 0
}

/// The two sides of a fraction: numerator and denominator.
pub type Sides = (Model, Model);

/// Both sides are valid and share no identifier.
pub open spec fn reduced_sides(s: Sides) -> bool {
    valid_model(s.0) && valid_model(s.1) && disjoint(s.0, s.1)
}

/// `s` is the reduced fraction in which every identifier has the signed
/// exponent that `f` gives it.
pub open spec fn is_fraction(s: Sides, f: spec_fn(Seq<char>) -> int) -> bool {
    reduced_sides(s) && forall|k: Seq<char>| #[trigger] net(s.0, s.1, k) == f(k)
}

/// The reduced fraction in which every identifier has the signed exponent
/// that `f` gives it, where there is one.
pub open spec fn fraction(f: spec_fn(Seq<char>) -> int) -> Sides {
    choose|s: Sides| is_fraction(s, f)
}

/// There is one reduced fraction at most with given signed exponents.
pub proof fn lemma_fraction_unique(a: Sides, b: Sides, f: spec_fn(Seq<char>) -> int)
    requires
        is_fraction(a, f),
        is_fraction(b, f),
    ensures
        a == b,
        fraction(f) == a,
{
    assert forall|k: Seq<char>|
        power_in(a.0, k) == power_in(b.0, k) && power_in(a.1, k) == power_in(b.1, k) by {
        assert(net(a.0, a.1, k) == f(k));
        assert(net(b.0, b.1, k) == f(k));
        assert(power_in(a.0, k) == 0 || power_in(a.1, k) == 0);
        assert(power_in(b.0, k) == 0 || power_in(b.1, k) == 0);
    }
    lemma_model_ext(a.0, b.0);
    lemma_model_ext(a.1, b.1);
    let c = fraction(f);
    assert(is_fraction(c, f));
    assert forall|k: Seq<char>|
        power_in(a.0, k) == power_in(c.0, k) && power_in(a.1, k) == power_in(c.1, k) by {
        assert(net(a.0, a.1, k) == f(k));
        assert(net(c.0, c.1, k) == f(k));
        assert(power_in(a.0, k) == 0 || power_in(a.1, k) == 0);
        assert(power_in(c.0, k) == 0 || power_in(c.1, k) == 0);
    }
    lemma_model_ext(a.0, c.0);
    lemma_model_ext(a.1, c.1);
}

/// What is left of `a` after `b` has been taken from it.
pub open spec fn excess(a: nat, b: nat) -> nat {
    if a > b {
        (a - b) as nat
    } else {
        0
    }
}

/// The power that the first `n` entries of `s` give to `k`.
pub open spec fn prefix_power(s: Model, n: int, k: Seq<char>) -> nat {
    if has_key(s, k) && index_of(s, k) < n {
        power_in(s, k)
    } else {
        0
    }
}

/// Taking one more entry into the prefix adds that entry's power and
/// leaves every other identifier as it was.
pub proof fn lemma_prefix_power_step(s: Model, n: int, k: Seq<char>)
    requires
        valid_model(s),
        0 <= n < s.len(),
    ensures
        prefix_power(s, n + 1, k) == prefix_power(s, n, k) + if k == s[n].0 {
            s[n].1
        } else {
            0
        },
        k == s[n].0 ==> prefix_power(s, n, k) == 0,
        prefix_power(s, 0, k) == 0,
        prefix_power(s, s.len() as int, k) == power_in(s, k),
{
    lemma_power_at(s, n);
    if has_key(s, k) && k == s[n].0 {
        let j = index_of(s, k);
        lemma_key_unique(s, j, n);
    }
}

/// Whether `power` of an identifier can be combined into the target side:
/// what is left after cancelling against the opposite side must fit the
/// machine word together with what the target already holds.
pub open spec fn combine_fits(target: Model, opposite: Model, name: Seq<char>, power: nat) -> bool {
    power_in(target, name) + excess(power, power_in(opposite, name)) <= u32::MAX
}

/// Adds `power` of `name` to the target side, cancelling first against what
/// the opposite side holds of it: the smaller amount is taken from both, and
/// only the remainder stays, on the side that had more.
///
/// Returns the new target and opposite sides, or `None` where the target's
/// power would leave the machine word.
pub fn combine_into(
    target: ExponentMap,
    opposite: ExponentMap,
    name: &str,
    power: u32,
) -> (r: Option<(ExponentMap, ExponentMap)>)
    requires
        target.wf(),
        opposite.wf(),
    ensures
        r is Some <==> combine_fits(target@, opposite@, name@, power as nat),
        r matches Some((t, o)) ==> {
            &&& t.wf()
            &&& o.wf()
            &&& forall|k: Seq<char>|
                t.power_of(k) == if k == name@ {
                    target.power_of(k) + excess(power as nat, opposite.power_of(k))
                } else {
                    target.power_of(k)
                }
            &&& forall|k: Seq<char>|
                o.power_of(k) == if k == name@ {
                    excess(opposite.power_of(k), power as nat)
                } else {
                    opposite.power_of(k)
                }
        },
{
    let mut target = target;
    let mut opposite = opposite;
    let held = opposite.get(name);
    if held >= power {
        opposite.put(name, held - power);
        Some((target, opposite))
    } else {
        let rest = power - held;
        let have = target.get(name);
        if have > u32::MAX - rest {
            None
        } else {
            opposite.put(name, 0);
            target.put(name, have + rest);
            Some((target, opposite))
        }
    }
}

/// Whether a fraction can take in another: for every identifier the sum
/// with the incoming numerator, and then the difference with the incoming
/// denominator, must stay within the machine word on either side.
pub open spec fn merge_fits(top: Model, bottom: Model, other_top: Model, other_bottom: Model) -> bool {
    forall|k: Seq<char>|
        #![trigger power_in(other_top, k)]
        #![trigger power_in(other_bottom, k)]
        {
            &&& net(top, bottom, k) + power_in(other_top, k) <= u32::MAX
            &&& net(top, bottom, k) + power_in(other_top, k) - power_in(other_bottom, k)
                >= -(u32::MAX as int)
        }
}

/// Multiplies the fraction `top / bottom` by `other_top / other_bottom`:
/// every entry of the incoming numerator goes into the numerator, and every
/// entry of the incoming denominator into the denominator, each cancelling
/// against the opposite side.
///
/// Returns the two sides of the product, which share no identifier, or
/// `None` where an exponent would leave the machine word.
pub fn merge(
    top: ExponentMap,
    bottom: ExponentMap,
    other_top: &ExponentMap,
    other_bottom: &ExponentMap,
) -> (r: Option<(ExponentMap, ExponentMap)>)
    requires
        top.wf(),
        bottom.wf(),
        other_top.wf(),
        other_bottom.wf(),
        disjoint(top@, bottom@),
    ensures
        r is Some <==> merge_fits(top@, bottom@, other_top@, other_bottom@),
        r matches Some((t, b)) ==> {
            &&& t.wf()
            &&& b.wf()
            &&& disjoint(t@, b@)
            &&& forall|k: Seq<char>|
                net(t@, b@, k) == net(top@, bottom@, k) + other_top.power_of(k)
                    - other_bottom.power_of(k)
        },
{
    let ghost top0 = top@;
    let ghost bottom0 = bottom@;
    let mut t = top;
    let mut b = bottom;
    let mut i: usize = 0;
    while i < other_top.len()
        invariant
            t.wf(),
            b.wf(),
            other_top.wf(),
            i <= other_top@.len(),
            top0 == top@,
            bottom0 == bottom@,
            disjoint(t@, b@),
            forall|k: Seq<char>|
                net(t@, b@, k) == net(top0, bottom0, k) + prefix_power(other_top@, i as int, k),
        decreases other_top@.len() - i,
    {
        let name = other_top.name_at(i);
        let power = other_top.power_at(i);
        proof {
            lemma_power_at(other_top@, i as int);
            lemma_prefix_power_step(other_top@, i as int, name@);
            lemma_power_positive(t@, name@);
            lemma_power_positive(b@, name@);
            assert(power_in(t@, name@) == 0 || power_in(b@, name@) == 0);
            assert(net(t@, b@, name@) == net(top0, bottom0, name@) + prefix_power(
                other_top@,
                i as int,
                name@,
            ));
        }
        let ghost t1 = t@;
        let ghost b1 = b@;
        match combine_into(t, b, name.as_str(), power) {
            Some((t2, b2)) => {
                t = t2;
                b = b2;
            },
            None => {
                assert(net(top0, bottom0, name@) + power_in(other_top@, name@) > u32::MAX);
                return None;
            },
        }
        proof {
            assert forall|k: Seq<char>|
                net(t@, b@, k) == net(top0, bottom0, k) + prefix_power(
                    other_top@,
                    i as int + 1,
                    k,
                ) by {
                lemma_prefix_power_step(other_top@, i as int, k);
                assert(net(t1, b1, k) == net(top0, bottom0, k) + prefix_power(
                    other_top@,
                    i as int,
                    k,
                ));
            }
            assert forall|k: Seq<char>|
                #![trigger power_in(t@, k)]
                #![trigger power_in(b@, k)]
                power_in(t@, k) == 0 || power_in(b@, k) == 0 by {
                assert(power_in(t1, k) == 0 || power_in(b1, k) == 0);
            }
        }
        i += 1;
    }
    let ghost top1 = t@;
    let ghost bottom1 = b@;
    proof {
        assert forall|k: Seq<char>|
            net(top1, bottom1, k) == net(top0, bottom0, k) + power_in(other_top@, k) by {
            if other_top@.len() > 0 {
                lemma_prefix_power_step(other_top@, 0, k);
            } else {
                assert(!has_key(other_top@, k));
            }
        }
        assert forall|k: Seq<char>|
            net(top0, bottom0, k) + #[trigger] power_in(other_top@, k) <= u32::MAX by {
            lemma_power_positive(top1, k);
            assert(net(top1, bottom1, k) == net(top0, bottom0, k) + power_in(other_top@, k));
        }
    }
    let mut j: usize = 0;
    while j < other_bottom.len()
        invariant
            t.wf(),
            b.wf(),
            other_bottom.wf(),
            j <= other_bottom@.len(),
            top0 == top@,
            bottom0 == bottom@,
            disjoint(t@, b@),
            forall|k: Seq<char>|
                net(top1, bottom1, k) == net(top0, bottom0, k) + power_in(other_top@, k),
            forall|k: Seq<char>|
                net(top0, bottom0, k) + #[trigger] power_in(other_top@, k) <= u32::MAX,
            forall|k: Seq<char>|
                net(t@, b@, k) == net(top1, bottom1, k) - prefix_power(other_bottom@, j as int, k),
        decreases other_bottom@.len() - j,
    {
        let name = other_bottom.name_at(j);
        let power = other_bottom.power_at(j);
        proof {
            lemma_power_at(other_bottom@, j as int);
            lemma_prefix_power_step(other_bottom@, j as int, name@);
            lemma_power_positive(t@, name@);
            lemma_power_positive(b@, name@);
            assert(power_in(t@, name@) == 0 || power_in(b@, name@) == 0);
            assert(net(t@, b@, name@) == net(top1, bottom1, name@) - prefix_power(
                other_bottom@,
                j as int,
                name@,
            ));
            assert(net(top1, bottom1, name@) == net(top0, bottom0, name@) + power_in(
                other_top@,
                name@,
            ));
        }
        let ghost t1 = t@;
        let ghost b1 = b@;
        match combine_into(b, t, name.as_str(), power) {
            Some((b2, t2)) => {
                t = t2;
                b = b2;
            },
            None => {
                assert(net(top0, bottom0, name@) + power_in(other_top@, name@) - power_in(
                    other_bottom@,
                    name@,
                ) < -(u32::MAX as int));
                return None;
            },
        }
        proof {
            assert forall|k: Seq<char>|
                net(t@, b@, k) == net(top1, bottom1, k) - prefix_power(
                    other_bottom@,
                    j as int + 1,
                    k,
                ) by {
                lemma_prefix_power_step(other_bottom@, j as int, k);
                assert(net(t1, b1, k) == net(top1, bottom1, k) - prefix_power(
                    other_bottom@,
                    j as int,
                    k,
                ));
            }
            assert forall|k: Seq<char>|
                #![trigger power_in(t@, k)]
                #![trigger power_in(b@, k)]
                power_in(t@, k) == 0 || power_in(b@, k) == 0 by {
                assert(power_in(t1, k) == 0 || power_in(b1, k) == 0);
            }
        }
        j += 1;
    }
    proof {
        assert forall|k: Seq<char>|
            net(t@, b@, k) == net(top0, bottom0, k) + power_in(other_top@, k) - power_in(
                other_bottom@,
                k,
            ) by {
            if other_bottom@.len() > 0 {
                lemma_prefix_power_step(other_bottom@, 0, k);
            } else {
                assert(!has_key(other_bottom@, k));
            }
            assert(net(top1, bottom1, k) == net(top0, bottom0, k) + power_in(other_top@, k));
        }
        assert forall|k: Seq<char>|
            #![trigger power_in(other_top@, k)]
            #![trigger power_in(other_bottom@, k)]
            {
                &&& net(top0, bottom0, k) + power_in(other_top@, k) <= u32::MAX
                &&& net(top0, bottom0, k) + power_in(other_top@, k) - power_in(other_bottom@, k)
                    >= -(u32::MAX as int)
            } by {
            lemma_power_positive(b@, k);
            lemma_power_positive(t@, k);
            assert(net(t@, b@, k) == net(top0, bottom0, k) + power_in(other_top@, k) - power_in(
                other_bottom@,
                k,
            ));
        }
    }
    Some((t, b))
}


} // verus!
