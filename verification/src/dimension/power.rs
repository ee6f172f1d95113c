//! Flat lists of signed powers of named units.

use super::Sign;
use super::Unite;
use crate::exponent::{has_key, index_of, lemma_power_at, lemma_power_positive, ExponentMap};
use crate::ident::name_lt;
use std::collections::hash_map::DefaultHasher;
use std::hash::Hasher;
use std::rc::Rc;
use vstd::bytes::{spec_u32_to_le_bytes, u32_to_le_bytes};
use vstd::prelude::*;
use vstd::std_specs::hash::DefaultHasherAdditionalSpecFns;
use vstd::utf8::encode_utf8;

verus! {

/// A dimension raised to a signed power: the size of the power, and its
/// sign apart.
#[derive(Debug, Hash)]
pub struct Power<D> {
    pub dimention: Rc<D>,
    pub sign: Sign,
    pub power: u32,
}

/// The signed value of a sign and a size.
pub open spec fn signed(sign: Sign, power: u32) -> int {
    match sign {
        Sign::Plus => power as int,
        Sign::Minus => -(power as int),
    }
}

impl<D> Power<D> {
    /// The dimension raised to the power of the given size and sign.
    pub fn new(dimention: Rc<D>, sign: Sign, power: u32) -> (r: Self)
        ensures
            r.dimention == dimention,
            r.sign == sign,
            r.power == power,
    {
        Self { dimention, sign, power }
    }

    /// The power as one signed number.
    pub fn as_i32(&self) -> (r: i32)
        requires
            self.power <= i32::MAX,
        ensures
            r == signed(self.sign, self.power),
    {
        match self.sign {
            Sign::Plus => self.power as i32,
            Sign::Minus => -(self.power as i32),
        }
    }
}

/// The size of a signed number.
pub open spec fn size_of(n: i32) -> u32 {
    if n < 0 {
        (-(n as int)) as u32
    } else {
        n as u32
    }
}

/// The sign of a signed number; zero counts as positive.
pub open spec fn sign_of(n: i32) -> Sign {
    if n < 0 {
        Sign::Minus
    } else {
        Sign::Plus
    }
}

impl From<(Rc<String>, i32)> for Power<Unite> {
    /// The named unit raised to a signed power.
    fn from(pair: (Rc<String>, i32)) -> (r: Self) {
        let (string, power) = pair;
        if power < 0 {
            let size: u32 = if power == i32::MIN {
                2147483648u32
            } else {
                (-power) as u32
            };
            Power { dimention: string, sign: Sign::Minus, power: size }
        } else {
            Power { dimention: string, sign: Sign::Plus, power: power as u32 }
        }
    }
}

impl vstd::std_specs::convert::FromSpecImpl<(Rc<String>, i32)> for Power<Unite> {
    open spec fn obeys_from_spec() -> bool {
        true
    }

    open spec fn from_spec(pair: (Rc<String>, i32)) -> Self {
        Power { dimention: pair.0, sign: sign_of(pair.1), power: size_of(pair.1) }
    }
}

/// A value that is either gathered, one entry for each name, or spread
/// out, as it came.
#[derive(Debug)]
pub enum Concat<T> {
    Concated(T),
    Spreaded(T),
}

impl<T> Concat<T> {
    /// The value, whichever way it is held.
    pub open spec fn value(&self) -> T {
        match self {
            Concat::Concated(t) => *t,
            Concat::Spreaded(t) => *t,
        }
    }

    /// Gives up the wrapper for the value.
    pub fn unwrap(self) -> (r: T)
        ensures
            r == self.value(),
    {
        match self {
            Concat::Concated(t) => t,
            Concat::Spreaded(t) => t,
        }
    }

    /// The value, to be changed in place; the wrapper stays what it is.
    pub fn get_mut(&mut self) -> (r: &mut T)
        ensures
            *r == old(self).value(),
            final(self).value() == *final(r),
            (*final(self)) is Concated <==> (*old(self)) is Concated,
    {
        match self {
            Concat::Concated(t) => t,
            Concat::Spreaded(t) => t,
        }
    }

    /// The value, by reference.
    pub fn get_ref(&self) -> (r: &T)
        ensures
            *r == self.value(),
    {
        match self {
            Concat::Concated(t) => t,
            Concat::Spreaded(t) => t,
        }
    }
}

impl<T: Default> Concat<T> {
    /// Marks the value as spread out, whatever it was before.
    pub fn make_spreaded(&mut self)
        ensures
            *final(self) == Concat::Spreaded(old(self).value()),
    {
        let mut held = Concat::Spreaded(T::default());
        core::mem::swap(self, &mut held);
        *self = Concat::Spreaded(held.unwrap());
    }
}

/// What an entry of a flat list says: the name, the sign, the size.
pub type Entry = (Seq<char>, Sign, u32);

/// A flat list of signed powers of named units.
#[derive(Debug)]
pub struct Flatten {
    pub vec: Concat<Vec<Power<Unite>>>,
}

impl View for Flatten {
    type V = Seq<Entry>;

    open spec fn view(&self) -> Seq<Entry> {
        entries(self.vec.value()@)
    }
}

/// What the powers of a list say, in order.
pub open spec fn entries(items: Seq<Power<Unite>>) -> Seq<Entry> {
    Seq::new(items.len(), |i: int| ((*items[i].dimention)@, items[i].sign, items[i].power))
}

/// The sum of the signed powers of `name` among the first `n` entries.
pub open spec fn total(s: Seq<Entry>, n: int, name: Seq<char>) -> int
    decreases n,
{
    if n <= 0 {
        0
    } else {
        total(s, n - 1, name) + if s[n - 1].0 == name {
            signed(s[n - 1].1, s[n - 1].2)
        } else {
            0
        }
    }
}

/// `name` is the name of one of the entries.
pub open spec fn names(s: Seq<Entry>, name: Seq<char>) -> bool {
    exists|i: int| 0 <= i < s.len() && (#[trigger] s[i]).0 == name
}

/// The sums can be taken entry by entry: every size fits a signed word,
/// and so does the sum of each name up to each point.
pub open spec fn summable(s: Seq<Entry>) -> bool {
    &&& forall|i: int| 0 <= i < s.len() ==> (#[trigger] s[i]).2 <= i32::MAX
    &&& forall|n: int, name: Seq<char>|
        0 <= n <= s.len() ==> i32::MIN <= #[trigger] total(s, n, name) <= i32::MAX
}

/// `after` gathers `before`: it has one entry for each name of `before`,
/// in the order of the names, with the sum of the signed powers of that
/// name; a sum of zero stays, as a positive power of size zero.
pub open spec fn gathers(after: Seq<Entry>, before: Seq<Entry>) -> bool {
    &&& forall|i: int, j: int|
        0 <= i < j < after.len() ==> name_lt((#[trigger] after[i]).0, (#[trigger] after[j]).0)
    &&& forall|j: int|
        0 <= j < after.len() ==> {
            &&& names(before, (#[trigger] after[j]).0)
            &&& signed(after[j].1, after[j].2) == total(before, before.len() as int, after[j].0)
            &&& after[j].1 == if total(before, before.len() as int, after[j].0) < 0 {
                Sign::Minus
            } else {
                Sign::Plus
            }
        }
    &&& forall|i: int| 0 <= i < before.len() ==> names(after, (#[trigger] before[i]).0)
}

/// The byte of a sign.
pub open spec fn sign_byte(sign: Sign) -> u8 {
    match sign {
        Sign::Plus => 0u8,
        Sign::Minus => 1u8,
    }
}

/// What the first `n` entries feed to a hasher: for each entry the bytes
/// of its name, the byte of its sign, and the four bytes of its size.
pub open spec fn fed(s: Seq<Entry>, n: int) -> Seq<Seq<u8>>
    decreases n,
{
    if n <= 0 {
        Seq::empty()
    } else {
        fed(s, n - 1).push(encode_utf8(s[n - 1].0)).push(seq![sign_byte(s[n - 1].1)]).push(
            spec_u32_to_le_bytes(s[n - 1].2),
        )
    }
}

impl Flatten {
    /// The list of one power.
    pub fn one(power: Power<Unite>) -> (r: Self)
        ensures
            r.vec is Spreaded,
            r@ == seq![((*power.dimention)@, power.sign, power.power)],
    {
        let mut list: Vec<Power<Unite>> = Vec::new();
        list.push(power);
        let r = Self { vec: Concat::Spreaded(list) };
        assert(r@ =~= seq![((*power.dimention)@, power.sign, power.power)]);
        r
    }

    /// Adds the entries of `other` behind those of this list, which is
    /// spread out from then on.
    pub fn append(&mut self, other: Self)
        ensures
            final(self).vec is Spreaded,
            final(self)@ == old(self)@ + other@,
    {
        self.vec.make_spreaded();
        let mut held: Concat<Vec<Power<Unite>>> = Concat::Spreaded(Vec::new());
        core::mem::swap(&mut self.vec, &mut held);
        let mut mine = held.unwrap();
        let mut theirs = other.vec.unwrap();
        mine.append(&mut theirs);
        self.vec = Concat::Spreaded(mine);
        assert(self@ =~= old(self)@ + other@);
    }

    /// Gathers the list: one entry for each name, in the order of the
    /// names, with the sum of the signed powers of that name.
    pub fn concate(&mut self)
        requires
            summable(old(self)@),
        ensures
            final(self).vec is Concated,
            gathers(final(self)@, old(self)@),
    {
        let mut held: Concat<Vec<Power<Unite>>> = Concat::Spreaded(Vec::new());
        core::mem::swap(&mut self.vec, &mut held);
        let items = held.unwrap();
        let ghost before = entries(items@);
        let mut found = ExponentMap::new();
        let mut i: usize = 0;
        while i < items.len()
            invariant
                found.wf(),
                i <= items@.len(),
                before == entries(items@),
                forall|j: int| 0 <= j < i ==> has_key(found@, (#[trigger] before[j]).0),
                forall|k: Seq<char>| has_key(found@, k) ==> names(before, k),
            decreases items@.len() - i,
        {
            let ghost old_found = found@;
            found.put(items[i].dimention.as_str(), 1);
            proof {
                let key = before[i as int].0;
                assert forall|j: int| 0 <= j < i + 1 implies has_key(
                    found@,
                    (#[trigger] before[j]).0,
                ) by {
                    lemma_power_positive(found@, before[j].0);
                    lemma_power_positive(old_found, before[j].0);
                }
                assert forall|k: Seq<char>| has_key(found@, k) implies names(before, k) by {
                    lemma_power_positive(found@, k);
                    lemma_power_positive(old_found, k);
                    if k == key {
                        assert(before[i as int].0 == k);
                    }
                }
            }
            i += 1;
        }
        let mut out: Vec<Power<Unite>> = Vec::new();
        let mut j: usize = 0;
        while j < found.len()
            invariant
                found.wf(),
                j <= found@.len(),
                out@.len() == j,
                before == entries(items@),
                summable(before),
                forall|k: Seq<char>| has_key(found@, k) ==> names(before, k),
                forall|n: int|
                    0 <= n < j ==> {
                        &&& (#[trigger] entries(out@)[n]).0 == found@[n].0
                        &&& signed(entries(out@)[n].1, entries(out@)[n].2) == total(
                            before,
                            before.len() as int,
                            found@[n].0,
                        )
                        &&& entries(out@)[n].1 == if total(
                            before,
                            before.len() as int,
                            found@[n].0,
                        ) < 0 {
                            Sign::Minus
                        } else {
                            Sign::Plus
                        }
                    },
            decreases found@.len() - j,
        {
            let name = found.name_at(j);
            let mut sum: i32 = 0;
            let mut n: usize = 0;
            while n < items.len()
                invariant
                    n <= items@.len(),
                    before == entries(items@),
                    summable(before),
                    sum == total(before, n as int, name@),
                decreases items@.len() - n,
            {
                assert(before[n as int].2 <= i32::MAX);
                assert(i32::MIN <= total(before, n as int + 1, name@) <= i32::MAX);
                if crate::ident::name_equal(items[n].dimention.as_str(), name.as_str()) {
                    sum = sum + items[n].as_i32();
                }
                n += 1;
            }
            let ghost done = entries(out@);
            let gathered = Power::from((Rc::new(name.clone()), sum));
            out.push(gathered);
            proof {
                let now = entries(out@);
                assert forall|m: int| 0 <= m < j implies #[trigger] now[m] == done[m] by {}
                assert(now[j as int].0 == found@[j as int].0);
                assert(signed(now[j as int].1, now[j as int].2) == sum);
            }
            j += 1;
        }
        self.vec = Concat::Concated(out);
        proof {
            let after = self@;
            assert(after.len() == found@.len());
            assert forall|a: int, b: int| 0 <= a < b < after.len() implies name_lt(
                (#[trigger] after[a]).0,
                (#[trigger] after[b]).0,
            ) by {
                assert(name_lt(found@[a].0, found@[b].0));
            }
            assert forall|m: int| 0 <= m < after.len() implies names(
                before,
                (#[trigger] after[m]).0,
            ) by {
                lemma_power_at(found@, m);
            }
            assert forall|m: int| 0 <= m < before.len() implies names(
                after,
                (#[trigger] before[m]).0,
            ) by {
                let k = before[m].0;
                assert(has_key(found@, k));
                let at = index_of(found@, k);
                assert(after[at].0 == k);
            }
        }
    }

    /// A hash of the list: what a standard hasher makes of the entries in
    /// order. Lists with the same entries have the same hash.
    pub fn hash(&self) -> (r: u64)
        ensures
            r == DefaultHasher::spec_finish(fed(self@, self@.len() as int)),
    {
        let items = self.vec.get_ref();
        let mut hasher = DefaultHasher::new();
        let mut i: usize = 0;
        while i < items.len()
            invariant
                i <= items@.len(),
                self@ == entries(items@),
                hasher@ == fed(self@, i as int),
            decreases items@.len() - i,
        {
            let item = &items[i];
            hasher.write(item.dimention.as_str().as_bytes());
            let mark: Vec<u8> = match item.sign {
                Sign::Plus => vec![0u8],
                Sign::Minus => vec![1u8],
            };
            assert(mark@ =~= seq![sign_byte(item.sign)]);
            hasher.write(mark.as_slice());
            let size = u32_to_le_bytes(item.power);
            hasher.write(size.as_slice());
            i += 1;
        }
        hasher.finish()
    }
}

} // verus!
