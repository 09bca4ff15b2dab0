//! Positions in an explicit substitution.
use vstd::prelude::*;

verus! {

/// Represents an index into the `Linked` linked-list data structure for explicit substitutions.
#[derive(Debug, Copy, Clone, PartialEq, Eq, Structural)]
pub struct DeBruijn(pub u32);

/// Represents an index into an `Entry` of the explicit substitution.
#[derive(Debug, Copy, Clone, PartialEq, Eq, Structural)]
pub enum Index {
    Param(usize),
    Let(usize),
}

/// Represents an index to a variable or term in an explicit substitution.
#[derive(Debug, Copy, Clone, PartialEq, Eq, Structural)]
pub struct DeBruijnIndex(pub DeBruijn, pub Index);

/// The side of a sequent that a variable stands on.
#[derive(Debug, Copy, Clone, PartialEq, Eq, Structural)]
pub enum Polarity {
    Goal,
    Premise,
}

impl Polarity {
    pub open spec fn flipped(self) -> Polarity {
        match self {
            Polarity::Goal => Polarity::Premise,
            Polarity::Premise => Polarity::Goal,
        }
    }

    pub fn opposite(&self) -> (r: Polarity)
        ensures
            r == self.flipped(),
    {
        match self {
            Polarity::Goal => Polarity::Premise,
            Polarity::Premise => Polarity::Goal,
        }
    }
}

/// Taking the opposite polarity twice gives the polarity back.
pub proof fn law_opposite_involutive(p: Polarity)
    ensures
        p.flipped().flipped() == p,
        p.flipped() != p,
{
}

/// A list indexed by `Index`.
pub struct Indexed<T> {
    pub params: Vec<T>,
    pub lets: Vec<T>,
}

/// The contents of an `Indexed`.
#[verifier::ext_equal]
pub struct Slots<T> {
    pub params: Seq<T>,
    pub lets: Seq<T>,
}

impl<T> Slots<T> {
    /// Whether there is an element at `index`.
    pub open spec fn has(self, index: Index) -> bool {
        match index {
            Index::Param(i) => i < self.params.len(),
            Index::Let(i) => i < self.lets.len(),
        }
    }

    /// The element at `index`.
    pub open spec fn at(self, index: Index) -> T {
        match index {
            Index::Param(i) => self.params[i as int],
            Index::Let(i) => self.lets[i as int],
        }
    }

    /// Whether there are no elements.
    pub open spec fn none(self) -> bool {
        self.params.len() == 0 && self.lets.len() == 0
    }

    /// The number of elements.
    pub open spec fn count(self) -> nat {
        self.params.len() + self.lets.len()
    }

    /// The `k`th index in iteration order: the params from last to first, then the lets
    /// from last to first.
    pub open spec fn nth(self, k: int) -> Index {
        if k < self.params.len() {
            Index::Param((self.params.len() - 1 - k) as usize)
        } else {
            Index::Let((self.count() - 1 - k) as usize)
        }
    }

    /// All indices, in iteration order.
    pub open spec fn order(self) -> Seq<Index> {
        Seq::new(self.count(), |k: int| self.nth(k))
    }
}

impl<T> View for Indexed<T> {
    type V = Slots<T>;

    open spec fn view(&self) -> Slots<T> {
        Slots { params: self.params@, lets: self.lets@ }
    }
}

impl<T> Indexed<T> {
    /// Whether there is an element at `index`.
    pub fn contains(&self, index: Index) -> (r: bool)
        ensures
            r == self@.has(index),
    {
        match index {
            Index::Param(i) => i < self.params.len(),
            Index::Let(i) => i < self.lets.len(),
        }
    }

    /// The element at `index`.
    pub fn index(&self, index: Index) -> (r: &T)
        requires
            self@.has(index),
        ensures
            *r == self@.at(index),
    {
        match index {
            Index::Param(i) => &self.params[i],
            Index::Let(i) => &self.lets[i],
        }
    }

    /// Whether there are no elements.
    pub fn is_empty(&self) -> (r: bool)
        ensures
            r == self@.none(),
    {
        self.params.len() == 0 && self.lets.len() == 0
    }

    /// We iterate over params first, as free variables are generally more important than consts.
    /// We iterate over params and lets in reverse order to prioritize dependently typed variables.
    pub fn iter(indexed: &Indexed<T>) -> (r: Vec<Index>)
        ensures
            r@ == indexed@.order(),
    {
        let mut result: Vec<Index> = Vec::new();
        let n: usize = indexed.params.len();
        let m: usize = indexed.lets.len();
        let mut i: usize = n;
        while i > 0
            invariant
                i <= n,
                n == indexed.params@.len(),
                m == indexed.lets@.len(),
                result@ == indexed@.order().take(n - i),
            decreases i,
        {
            i = i - 1;
            result.push(Index::Param(i));
        }
        let mut j: usize = m;
        while j > 0
            invariant
                j <= m,
                n == indexed.params@.len(),
                m == indexed.lets@.len(),
                result@ == indexed@.order().take(n + m - j),
            decreases j,
        {
            j = j - 1;
            result.push(Index::Let(j));
        }
        assert(indexed@.order().take(n + m) == indexed@.order());
        result
    }
}

/// Iteration visits every index once: an index occurs in the order just where there is an
/// element, and at one place only.
pub proof fn law_order_complete<T>(s: Slots<T>, index: Index)
    requires
        s.params.len() <= usize::MAX,
        s.lets.len() <= usize::MAX,
    ensures
        s.order().contains(index) <==> s.has(index),
        s.order().no_duplicates(),
{
    if s.has(index) {
        let k: int = match index {
            Index::Param(i) => s.params.len() - 1 - i,
            Index::Let(i) => s.count() - 1 - i,
        };
        assert(s.order()[k] == index);
    }
}

} // verus!
