use vstd::prelude::*;

verus! {

/// One of the three coordinate axes.
#[derive(Clone, Copy, Debug, PartialEq, Eq, Structural)]
pub enum Axis {
    X,
    Y,
    Z,
}

impl Axis {
    /// The index of the axis in a coordinate triple.
    pub open spec fn index(self) -> nat {
        match self {
            Axis::X => 0,
            Axis::Y => 1,
            Axis::Z => 2,
        }
    }

    /// The index of this axis: 0 for x, 1 for y, 2 for z.
    pub fn value(&self) -> (r: usize)
        ensures
            r == self.index(),
    {
        match self {
            Axis::X => 0,
            Axis::Y => 1,
            Axis::Z => 2,
        }
    }

    /// The axis with the given index.
    pub fn from_index(i: usize) -> (a: Axis)
        requires
            i < 3,
        ensures
            a.index() == i,
    {
        if i == 0 {
            Axis::X
        } else if i == 1 {
            Axis::Y
        } else {
            Axis::Z
        }
    }

    /// An axis drawn uniformly at random.
    pub fn random() -> Axis {
        let i = random_below(3);
        Axis::from_index(i)
    }
}

/// Relies on rand's `Rng::gen_range(low, high)` on the thread-local generator:
/// a value in `[low, high)`; it panics when `low >= high`, which `requires` excludes.
#[verifier::external_body]
fn random_below(n: usize) -> (r: usize)
    requires
        0 < n,
    ensures
        r < n,
{
    rand::Rng::gen_range(&mut rand::thread_rng(), 0, n)
}

} // verus!
