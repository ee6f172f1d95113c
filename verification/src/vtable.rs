//! A table of named dimensions.

use crate::dimension::RawDimension;
use crate::ident::name_equal;
use vstd::prelude::*;

verus! {

/// The name of a dimension.
#[derive(Debug)]
pub struct Name {
    name: String,
}

impl View for Name {
    type V = Seq<char>;

    closed spec fn view(&self) -> Seq<char> {
        self.name@
    }
}

impl Name {
    /// Gives the name its text.
    pub fn add_name(&mut self, name: String)
        ensures
            final(self)@ == name@,
    {
        self.name = name
    }

    /// The text of the name.
    pub fn as_str(&self) -> (r: &str)
        ensures
            r@ == self@,
    {
        self.name.as_str()
    }
}

impl Default for Name {
    /// The empty name.
    fn default() -> (r: Name)
        ensures
            r@ == Seq::<char>::empty(),
    {
        Name { name: String::new() }
    }
}

/// Why a table did not take a dimension.
#[derive(Debug)]
pub enum Digirror {
    /// The table has a dimension of that name already.
    NameAlreadyExist(Name),
}

/// Dimensions by name; a name stands once at most.
pub struct VTable {
    names: Vec<Name>,
    dimensions: Vec<RawDimension>,
}

spec fn table_of(names: Seq<Name>, dimensions: Seq<RawDimension>) -> Map<Seq<char>, RawDimension>
    decreases names.len(),
{
    if names.len() == 0 || dimensions.len() == 0 {
        Map::empty()
    } else {
        table_of(names.drop_last(), dimensions.drop_last()).insert(
            names.last()@,
            dimensions.last(),
        )
    }
}

proof fn lemma_table_skip(names: Seq<Name>, dimensions: Seq<RawDimension>, k: Seq<char>)
    requires
        names.len() == dimensions.len(),
        forall|j: int| 0 <= j < names.len() ==> (#[trigger] names[j])@ != k,
    ensures
        !table_of(names, dimensions).contains_key(k),
    decreases names.len(),
{
    if names.len() > 0 {
        assert(names[names.len() - 1]@ != k);
        lemma_table_skip(names.drop_last(), dimensions.drop_last(), k);
    }
}

proof fn lemma_table_has(names: Seq<Name>, dimensions: Seq<RawDimension>, i: int)
    requires
        names.len() == dimensions.len(),
        0 <= i < names.len(),
    ensures
        table_of(names, dimensions).contains_key(names[i]@),
    decreases names.len(),
{
    if i < names.len() - 1 {
        lemma_table_has(names.drop_last(), dimensions.drop_last(), i);
    }
}

impl View for VTable {
    type V = Map<Seq<char>, RawDimension>;

    closed spec fn view(&self) -> Map<Seq<char>, RawDimension> {
        table_of(self.names@, self.dimensions@)
    }
}

impl VTable {
    /// Both columns of the table have the same length.
    pub closed spec fn wf(&self) -> bool {
        self.names@.len() == self.dimensions@.len()
    }

    /// Whether the table has a dimension of the given name.
    pub fn contains(&self, name: &Name) -> (b: bool)
        requires
            self.wf(),
        ensures
            b == self@.contains_key(name@),
    {
        let mut i: usize = 0;
        while i < self.names.len()
            invariant
                self.wf(),
                i <= self.names@.len(),
                forall|j: int| 0 <= j < i ==> (#[trigger] self.names@[j])@ != name@,
            decreases self.names@.len() - i,
        {
            if name_equal(self.names[i].as_str(), name.as_str()) {
                proof {
                    lemma_table_has(self.names@, self.dimensions@, i as int);
                }
                return true;
            }
            i += 1;
        }
        proof {
            lemma_table_skip(self.names@, self.dimensions@, name@);
        }
        false
    }

    /// Puts a dimension into the table under a name that it does not hold
    /// yet; a name that it holds comes back with the failure.
    pub fn push(&mut self, name: Name, dimension: RawDimension) -> (r: Result<(), Digirror>)
        requires
            old(self).wf(),
        ensures
            final(self).wf(),
            match r {
                Ok(_) => !old(self)@.contains_key(name@) && final(self)@ == old(self)@.insert(
                    name@,
                    dimension,
                ),
                Err(Digirror::NameAlreadyExist(n)) => old(self)@.contains_key(name@) && n == name
                    && final(self)@ == old(self)@,
            },
    {
        if !self.contains(&name) {
            self.names.push(name);
            self.dimensions.push(dimension);
            proof {
                assert(self.names@.drop_last() =~= old(self).names@);
                assert(self.dimensions@.drop_last() =~= old(self).dimensions@);
            }
            Ok(())
        } else {
            Err(Digirror::NameAlreadyExist(name))
        }
    }
}

impl Default for VTable {
    /// The empty table.
    fn default() -> (r: VTable)
        ensures
            r.wf(),
            r@ == Map::<Seq<char>, RawDimension>::empty(),
    {
        VTable { names: Vec::new(), dimensions: Vec::new() }
    }
}

} // verus!
