//! Dimensions as trees of units, powers and products.

pub mod power;

use power::{fed, Entry, Flatten, Power};
use std::collections::hash_map::DefaultHasher;
use std::rc::Rc;
use vstd::prelude::*;
use vstd::std_specs::hash::DefaultHasherAdditionalSpecFns;

verus! {

/// The name of a unit.
pub type Unite = String;

/// A dimension: a unit, a power of a dimension, or two dimensions joined
/// by an operator.
pub enum RawDimension {
    Unite(Rc<Unite>),
    Power(Power<RawDimension>),
    Composit(Rc<RawDimension>, Operator, Rc<RawDimension>),
}

/// How two dimensions are joined.
#[derive(Debug, Clone, Copy, PartialEq, Eq, Structural)]
pub enum Operator {
    Mul,
    Div,
}

/// The sign of a power.
#[derive(Debug, Clone, Copy, Hash, PartialEq, Eq, Structural)]
pub enum Sign {
    Plus,
    Minus,
}

impl Sign {
    /// The other sign.
    pub open spec fn flipped(&self) -> Sign {
        match self {
            Sign::Plus => Sign::Minus,
            Sign::Minus => Sign::Plus,
        }
    }

    /// The sign of a product of numbers with the given signs.
    pub open spec fn product(&self, other: Sign) -> Sign {
        if *self == other {
            Sign::Plus
        } else {
            Sign::Minus
        }
    }

    /// The other sign.
    pub fn flip(&self) -> (r: Self)
        ensures
            r == self.flipped(),
    {
        match self {
            Self::Plus => Self::Minus,
            Self::Minus => Self::Plus,
        }
    }

    /// The sign of a product of numbers with this sign and the other.
    pub fn multiply(&self, other: Self) -> (r: Self)
        ensures
            r == self.product(other),
    {
        match self {
            Self::Plus => match other {
                Self::Plus => Self::Plus,
                Self::Minus => Self::Minus,
            },
            Self::Minus => match other {
                Self::Plus => Self::Minus,
                Self::Minus => Self::Plus,
            },
        }
    }
}

/// The entries that a tree flattens to, walked from left to right with a
/// running power: every unit stands with a positive sign and the running
/// power, which each power node multiplies by its own size.
pub open spec fn flat(dim: RawDimension, power: nat) -> Seq<Entry>
    decreases dim,
{
    match dim {
        RawDimension::Unite(unite) => seq![((*unite)@, Sign::Plus, power as u32)],
        RawDimension::Power(inner) => flat(*inner.dimention, power * (inner.power as nat)),
        RawDimension::Composit(left, _, right) => flat(*left, power) + flat(*right, power),
    }
}

/// Every running power of the walk fits the machine word.
pub open spec fn flat_fits(dim: RawDimension, power: nat) -> bool
    decreases dim,
{
    match dim {
        RawDimension::Unite(_) => power <= u32::MAX,
        RawDimension::Power(inner) => power <= u32::MAX && flat_fits(
            *inner.dimention,
            power * (inner.power as nat),
        ),
        RawDimension::Composit(left, _, right) => flat_fits(*left, power) && flat_fits(
            *right,
            power,
        ),
    }
}

impl RawDimension {
    /// The flat list of the units of this tree, each with its power.
    pub fn flatten(&self) -> (r: Option<Flatten>)
        ensures
            r is Some <==> flat_fits(*self, 1),
            r matches Some(f) ==> f@ == flat(*self, 1),
    {
        self.flatten_recursive(Sign::Plus, 1)
    }

    /// The flat list of the units of this tree under a running sign and
    /// power, or `None` where a running power leaves the machine word.
    pub fn flatten_recursive(&self, sign: Sign, power: u32) -> (r: Option<Flatten>)
        ensures
            r is Some <==> flat_fits(*self, power as nat),
            r matches Some(f) ==> f@ == flat(*self, power as nat),
        decreases *self,
    {
        match self {
            Self::Unite(unite) => {
                let name = Rc::new((**unite).clone());
                Some(Flatten::one(Power::new(name, Sign::Plus, power)))
            },
            Self::Power(inner) => {
                match power.checked_mul(inner.power) {
                    Some(scaled) => inner.dimention.flatten_recursive(
                        inner.sign.multiply(sign),
                        scaled,
                    ),
                    None => {
                        proof {
                            lemma_flat_bounded(&*inner.dimention, power as nat * inner.power as nat);
                        }
                        None
                    },
                }
            },
            Self::Composit(dim1, op, dim2) => {
                let mut flatten = match dim1.flatten_recursive(sign, power) {
                    Some(f) => f,
                    None => {
                        return None;
                    },
                };
                let next = match op {
                    Operator::Mul => dim2.flatten_recursive(sign, power),
                    Operator::Div => dim2.flatten_recursive(sign.flip(), power),
                };
                match next {
                    Some(f) => {
                        flatten.append(f);
                        Some(flatten)
                    },
                    None => None,
                }
            },
        }
    }
}

/// A walk whose running power does not fit the machine word does not fit.
proof fn lemma_flat_bounded(dim: &RawDimension, power: nat)
    requires
        power > u32::MAX,
    ensures
        !flat_fits(*dim, power),
    decreases *dim,
{
    match dim {
        RawDimension::Unite(_) => {},
        RawDimension::Power(_) => {},
        RawDimension::Composit(left, _, _) => {
            lemma_flat_bounded(&**left, power);
        },
    }
}

/// A dimension with its flat list and the hash of that list, by which two
/// dimensions are compared.
pub struct Dimension {
    raw_dimension: RawDimension,
    flattened: Flatten,
    hash: u64,
}

impl Dimension {
    /// The tree that the dimension was made from.
    pub closed spec fn raw(&self) -> RawDimension {
        self.raw_dimension
    }

    /// The hash of the flat list.
    pub closed spec fn hash_spec(&self) -> u64 {
        self.hash
    }

    /// The entries of the flat list.
    pub closed spec fn flat_spec(&self) -> Seq<Entry> {
        self.flattened@
    }

    /// The dimension of a tree, or `None` where flattening it leaves the
    /// machine word.
    pub fn from(dim: RawDimension) -> (r: Option<Dimension>)
        ensures
            r is Some <==> flat_fits(dim, 1),
            r matches Some(d) ==> {
                &&& d.raw() == dim
                &&& d.flat_spec() == flat(dim, 1)
                &&& d.hash_spec() == DefaultHasher::spec_finish(
                    fed(flat(dim, 1), flat(dim, 1).len() as int),
                )
            },
    {
        match dim.flatten() {
            Some(flattened) => {
                let hash = flattened.hash();
                Some(Dimension { raw_dimension: dim, flattened, hash })
            },
            None => None,
        }
    }

    /// The flat list of the units of the dimension.
    pub fn flattened(&self) -> (r: &Flatten)
        ensures
            r@ == self.flat_spec(),
    {
        &self.flattened
    }

    /// The hash of the flat list.
    pub fn hash(&self) -> (r: u64)
        ensures
            r == self.hash_spec(),
    {
        self.hash
    }

    /// Whether both dimensions have the same hash.
    pub fn eq(&self, other: &Self) -> (r: bool)
        ensures
            r == (self.hash_spec() == other.hash_spec()),
    {
        self.hash == other.hash
    }
}

} // verus!
