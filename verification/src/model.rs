//! The ship whose stability the cached tables serve.
use vstd::prelude::*;
use crate::order::{compare, obeys_order, order_of, Order};

verus! {

/// The hull model.
pub struct Model {}

impl Model {
    /// Creates the model.
    pub fn new() -> (r: Model)
        ensures
            r == (Model {  }),
    {
        Model {  }
    }
}

/// Where a part of the ship lies against the waterline.
#[derive(Clone, Copy, Debug, PartialEq, Eq, Structural)]
pub enum RelativePostion {
    Above,
    Under,
}

impl RelativePostion {
    /// How the height of a part stands to that of the waterline on this side of it.
    pub open spec fn side(self) -> Order {
        match self {
            RelativePostion::Above => Order::Greater,
            RelativePostion::Under => Order::Less,
        }
    }

    /// Whether a part at height `part_z` lies on this side of a waterline at
    /// height `waterline_z`. A part at the height of the waterline, or at a
    /// height that cannot be ordered against it, lies on neither side.
    pub fn holds<T: PartialOrd>(&self, part_z: &T, waterline_z: &T) -> (r: bool)
        ensures
            obeys_order::<T>() ==> r == (order_of(*part_z, *waterline_z) == Some(self.side())),
    {
        match (self, compare(part_z, waterline_z)) {
            (RelativePostion::Above, Some(Order::Greater)) => true,
            (RelativePostion::Under, Some(Order::Less)) => true,
            _ => false,
        }
    }
}

/// The key of a cache of the ship model.
#[derive(Clone, Copy, Debug, PartialEq, Eq, Hash, Structural)]
pub enum CacheKey {
    /// The cache of floating positions.
    FloatingPostion,
}

impl CacheKey {
    /// Whether a request for `requested` caches is one for this cache: a
    /// request that names no cache is one for all.
    pub fn is_requested(&self, requested: &[CacheKey]) -> (r: bool)
        ensures
            r == (requested@.len() == 0 || requested@.contains(*self)),
    {
        if requested.len() == 0 {
            return true;
        }
        let mut i: usize = 0;
        while i < requested.len()
            invariant
                i <= requested@.len(),
                forall|n: int| 0 <= n < i ==> requested@[n] != *self,
            decreases requested@.len() - i,
        {
            if requested[i] == *self {
                return true;
            }
            i = i + 1;
        }
        false
    }
}

} // verus!
