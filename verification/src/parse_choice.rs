use vstd::prelude::*;

verus! {

/// The branch a choice parser took among `N + 1` alternatives, numbered from zero.
#[derive(Clone, Copy, Debug, PartialEq, Eq, Hash, PartialOrd, Ord)]
pub struct Branch<const N: usize>(usize);

impl<const N: usize> Branch<N> {
    /// A branch id never exceeds `N`.
    #[verifier::type_invariant]
    spec fn in_range(self) -> bool {
        self.0 <= N
    }

    /// The matched branch id.
    pub closed spec fn spec_id(self) -> usize {
        self.0
    }

    /// The matched branch id.
    pub fn id(&self) -> (r: usize)
        ensures
            r == self.spec_id(),
            r <= N,
    {
        proof {
            use_type_invariant(self);
        }
        self.0
    }

    /// The branch at `index`, which must not exceed `N`.
    pub(crate) fn from_index(index: usize) -> (r: Self)
        requires
            index <= N,
        ensures
            r.spec_id() == index,
    {
        Branch(index)
    }

    /// The branch at `index`, where there is one: `index` must not exceed `N`.
    pub fn at(index: usize) -> (r: Option<Self>)
        ensures
            r is Some <==> index <= N,
            r matches Some(b) ==> b.spec_id() == index,
    {
        if index <= N {
            Some(Self::from_index(index))
        } else {
            None
        }
    }

    /// The zeroth branch.
    pub fn b0() -> (r: Self)
        ensures
            r.spec_id() == 0,
    {
        Self::from_index(0)
    }
}

} // verus!
