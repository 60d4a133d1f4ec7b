//! Tentative distances: a finite cost, or the marker for "no cost known".

use std::cmp::Ordering;
use vstd::prelude::*;

verus! {

/// The best cost known so far from the source of a search to a node.
///
/// Every finite value is below `Infinite`, finite values compare by their
/// number, and `Infinite` equals only itself.
#[derive(Clone, Copy, Debug, PartialEq, Eq, Structural)]
pub enum TentativeWeight {
    Infinite,
    Number(u32),
}

impl TentativeWeight {
    /// `self` is strictly below `other`.
    pub open spec fn lt_spec(self, other: TentativeWeight) -> bool {
        match (self, other) {
            (TentativeWeight::Number(a), TentativeWeight::Number(b)) => a < b,
            (TentativeWeight::Number(_), TentativeWeight::Infinite) => true,
            (TentativeWeight::Infinite, _) => false,
        }
    }

    /// `self` is below or equal to `other`.
    pub open spec fn le_spec(self, other: TentativeWeight) -> bool {
        self == other || self.lt_spec(other)
    }

    /// The three-way comparison of the total order.
    pub open spec fn order_spec(self, other: TentativeWeight) -> Ordering {
        if self.lt_spec(other) {
            Ordering::Less
        } else if self == other {
            Ordering::Equal
        } else {
            Ordering::Greater
        }
    }

    /// Compares two tentative distances.
    pub fn cmp(&self, other: &TentativeWeight) -> (o: Ordering)
        ensures
            o == self.order_spec(*other),
    {
        match other {
            TentativeWeight::Infinite => match self {
                TentativeWeight::Infinite => Ordering::Equal,
                _ => Ordering::Less,
            },
            TentativeWeight::Number(n) => match self {
                TentativeWeight::Infinite => Ordering::Greater,
                TentativeWeight::Number(s) => {
                    if *s < *n {
                        Ordering::Less
                    } else if *s == *n {
                        Ordering::Equal
                    } else {
                        Ordering::Greater
                    }
                },
            },
        }
    }

    /// Whether `self` is strictly below `other`.
    pub fn is_less(&self, other: &TentativeWeight) -> (b: bool)
        ensures
            b == self.lt_spec(*other),
    {
        match self.cmp(other) {
            Ordering::Less => true,
            _ => false,
        }
    }
}

impl PartialOrd for TentativeWeight {
    fn partial_cmp(&self, other: &TentativeWeight) -> (o: Option<Ordering>) {
        Some(self.cmp(other))
    }
}

impl vstd::std_specs::cmp::PartialOrdSpecImpl for TentativeWeight {
    open spec fn obeys_partial_cmp_spec() -> bool {
        true
    }

    open spec fn partial_cmp_spec(&self, other: &TentativeWeight) -> Option<Ordering> {
        Some(self.order_spec(*other))
    }
}

/// The order is total: of two distances exactly one is below the other, or
/// they are equal.
pub proof fn lemma_order_total(a: TentativeWeight, b: TentativeWeight)
    ensures
        a.lt_spec(b) || b.lt_spec(a) || a == b,
        !(a.lt_spec(b) && b.lt_spec(a)),
        !a.lt_spec(a),
{
}

/// The order is transitive.
pub proof fn lemma_order_transitive(a: TentativeWeight, b: TentativeWeight, c: TentativeWeight)
    requires
        a.le_spec(b),
        b.le_spec(c),
    ensures
        a.le_spec(c),
        a.lt_spec(b) || b.lt_spec(c) ==> a.lt_spec(c),
{
}

/// `Infinite` is the greatest value, and the only one that is not finite.
pub proof fn lemma_infinite_greatest(a: TentativeWeight)
    ensures
        a.le_spec(TentativeWeight::Infinite),
        TentativeWeight::Infinite.le_spec(a) ==> a == TentativeWeight::Infinite,
{
}

} // verus!
