use vstd::prelude::*;

verus! {

/// How far an object is shown: to everyone, only on this client, or not at
/// all.
///
/// The variants are ordered from most to least visible; the least visible of
/// two wins when they are combined.
#[derive(Debug, Clone, Copy, PartialEq, Eq, Structural)]
pub enum Visibility {
    Remote,
    Local,
    Nowhere,
}

impl Visibility {
    /// The position of a visibility in the order `Remote < Local < Nowhere`.
    pub open spec fn rank(self) -> nat {
        match self {
            Visibility::Remote => 0,
            Visibility::Local => 1,
            Visibility::Nowhere => 2,
        }
    }

    /// The less visible of two visibilities.
    pub open spec fn spec_max(self, other: Visibility) -> Visibility {
        if self.rank() >= other.rank() {
            self
        } else {
            other
        }
    }

    pub fn is_remote(&self) -> (r: bool)
        ensures
            r == (*self == Visibility::Remote),
    {
        matches!(self, Visibility::Remote)
    }

    pub fn is_local(&self) -> (r: bool)
        ensures
            r == (*self == Visibility::Local),
    {
        matches!(self, Visibility::Local)
    }

    pub fn is_none(&self) -> (r: bool)
        ensures
            r == (*self == Visibility::Nowhere),
    {
        matches!(self, Visibility::Nowhere)
    }

    /// The less visible of `self` and `other`.
    pub fn max(self, other: Visibility) -> (r: Visibility)
        ensures
            r == self.spec_max(other),
    {
        let a: u8 = match self {
            Visibility::Remote => 0,
            Visibility::Local => 1,
            Visibility::Nowhere => 2,
        };
        let b: u8 = match other {
            Visibility::Remote => 0,
            Visibility::Local => 1,
            Visibility::Nowhere => 2,
        };
        if a >= b {
            self
        } else {
            other
        }
    }
}

} // verus!
