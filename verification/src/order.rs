//! The three-way relation between two scalars.
use vstd::prelude::*;
use vstd::std_specs::cmp::PartialOrdSpec;
use core::cmp::Ordering;

verus! {

/// How one scalar stands to another.
#[derive(Clone, Copy, Debug, PartialEq, Eq, Structural)]
pub enum Order {
    Less,
    Equal,
    Greater,
}

/// Whether comparisons on `T` are described by [`order_of`].
pub open spec fn obeys_order<T: PartialOrd>() -> bool {
    T::obeys_partial_cmp_spec()
}

/// The relation of `a` to `b`; `None` where the two cannot be ordered.
pub open spec fn order_of<T: PartialOrd>(a: T, b: T) -> Option<Order> {
    match a.partial_cmp_spec(&b) {
        Some(Ordering::Less) => Some(Order::Less),
        Some(Ordering::Equal) => Some(Order::Equal),
        Some(Ordering::Greater) => Some(Order::Greater),
        None => None,
    }
}

/// Compares `a` with `b`.
pub fn compare<T: PartialOrd>(a: &T, b: &T) -> (r: Option<Order>)
    ensures
        obeys_order::<T>() ==> r == order_of(*a, *b),
{
    match a.partial_cmp(b) {
        Some(Ordering::Less) => Some(Order::Less),
        Some(Ordering::Equal) => Some(Order::Equal),
        Some(Ordering::Greater) => Some(Order::Greater),
        None => None,
    }
}

/// Whether two relations are the same.
pub fn same(a: Option<Order>, b: Option<Order>) -> (r: bool)
    ensures
        r == (a == b),
{
    match (a, b) {
        (None, None) => true,
        (Some(x), Some(y)) => x == y,
        _ => false,
    }
}

/// The relation of `a` to `c` that follows from those of `a` to `b` and of `b`
/// to `c`, where one follows: an equal pair hands the other relation on, and
/// two steps in one direction make a step in that direction.
pub open spec fn chain(ab: Option<Order>, bc: Option<Order>) -> Option<Order> {
    match (ab, bc) {
        (Some(Order::Equal), Some(o)) => Some(o),
        (Some(o), Some(Order::Equal)) => Some(o),
        (Some(Order::Less), Some(Order::Less)) => Some(Order::Less),
        (Some(Order::Greater), Some(Order::Greater)) => Some(Order::Greater),
        _ => None,
    }
}

/// The mirror image of a relation.
pub open spec fn flip(o: Option<Order>) -> Option<Order> {
    match o {
        Some(Order::Less) => Some(Order::Greater),
        Some(Order::Greater) => Some(Order::Less),
        other => other,
    }
}

/// Comparisons on `T` are described by [`order_of`], which mirrors when its
/// operands are exchanged, is transitive as far as [`chain`] says, and finds
/// equal to itself whatever it can order against anything.
#[verifier::opaque]
pub open spec fn lawful<T: PartialOrd>() -> bool {
    &&& obeys_order::<T>()
    &&& forall|a: T, b: T| #[trigger] order_of(b, a) == flip(order_of(a, b))
    &&& forall|a: T, b: T| (#[trigger] order_of(a, b)) is Some ==> order_of(a, a) == Some(Order::Equal)
    &&& forall|a: T, b: T, c: T|
        #![trigger order_of(a, b), order_of(b, c)]
        chain(order_of(a, b), order_of(b, c)) is Some ==> order_of(a, c) == chain(
            order_of(a, b),
            order_of(b, c),
        )
}

/// A lawful order obeys its description.
pub proof fn lemma_lawful_obeys<T: PartialOrd>()
    requires
        lawful::<T>(),
    ensures
        obeys_order::<T>(),
{
    reveal(lawful);
}

/// In a lawful order, relations compose as [`chain`] says.
pub proof fn lemma_chain<T: PartialOrd>(a: T, b: T, c: T)
    requires
        lawful::<T>(),
        chain(order_of(a, b), order_of(b, c)) is Some,
    ensures
        order_of(a, c) == chain(order_of(a, b), order_of(b, c)),
{
    reveal(lawful);
}

/// In a lawful order, both of two scalars that can be ordered equal themselves.
pub proof fn lemma_reflexive<T: PartialOrd>(a: T, b: T)
    requires
        lawful::<T>(),
        order_of(a, b) is Some,
    ensures
        order_of(a, a) == Some(Order::Equal),
        order_of(b, b) == Some(Order::Equal),
{
    reveal(lawful);
    assert(order_of(b, a) == flip(order_of(a, b)));
}

/// The order of the whole numbers of 64 bits is lawful.
pub proof fn lemma_i64_lawful()
    ensures
        lawful::<i64>(),
{
    reveal(lawful);
}

} // verus!
