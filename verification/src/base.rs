//! Identifiers, node keys and edge weights shared by every storage backend.

use vstd::prelude::*;

verus! {

/// Dense, zero-based handle of a node inside one storage instance.
#[derive(Copy, Clone, Debug, PartialEq, Eq, Hash, Structural)]
pub struct NodeId(pub usize);

/// Dense, zero-based handle of an edge record inside one storage instance.
#[derive(Copy, Clone, Debug, PartialEq, Eq, Hash, Structural)]
pub struct EdgeId(pub usize);

/// Which storage layout an algorithm would like to run on.
#[derive(Copy, Clone, Debug)]
pub enum RepresentationHint {
    PreferAdjList,
    PreferAdjMatrix,
    Auto,
    ForceAdjList,
    ForceAdjMatrix,
}

/// A user-facing node label.
///
/// Two keys denote the same node exactly when their views are equal; the
/// contracts of the whole library speak of keys through their views.
pub trait NodeKey: View + Sized {
    /// Decides whether two keys denote the same node.
    fn key_eq(&self, other: &Self) -> (same: bool)
        ensures
            same == (self@ == other@),
    ;

    /// Makes an independent copy of the key.
    fn key_clone(&self) -> (copy: Self)
        ensures
            copy@ == self@,
    ;
}

impl NodeKey for String {
    fn key_eq(&self, other: &Self) -> (same: bool) {
        self.eq(other)
    }

    fn key_clone(&self) -> (copy: Self) {
        self.clone()
    }
}

impl NodeKey for usize {
    fn key_eq(&self, other: &Self) -> (same: bool) {
        *self == *other
    }

    fn key_clone(&self) -> (copy: Self) {
        *self
    }
}

impl NodeKey for u32 {
    fn key_eq(&self, other: &Self) -> (same: bool) {
        *self == *other
    }

    fn key_clone(&self) -> (copy: Self) {
        *self
    }
}

impl NodeKey for u64 {
    fn key_eq(&self, other: &Self) -> (same: bool) {
        *self == *other
    }

    fn key_clone(&self) -> (copy: Self) {
        *self
    }
}

impl NodeKey for i32 {
    fn key_eq(&self, other: &Self) -> (same: bool) {
        *self == *other
    }

    fn key_clone(&self) -> (copy: Self) {
        *self
    }
}

impl NodeKey for i64 {
    fn key_eq(&self, other: &Self) -> (same: bool) {
        *self == *other
    }

    fn key_clone(&self) -> (copy: Self) {
        *self
    }
}

impl NodeKey for char {
    fn key_eq(&self, other: &Self) -> (same: bool) {
        *self == *other
    }

    fn key_clone(&self) -> (copy: Self) {
        *self
    }
}

/// Minimal numeric weight: comparable, summable, with a zero.
///
/// Every weight stands for an integer, `value()`, inside the closed range
/// from `lowest()` to `highest()`.
pub trait Weight: Copy {
    /// The integer this weight stands for.
    spec fn value(&self) -> int;

    /// Smallest integer the type can hold.
    spec fn lowest() -> int;

    /// Largest integer the type can hold.
    spec fn highest() -> int;

    /// Every weight lies in the representable range, which contains zero,
    /// and two weights with the same value are the same weight.
    proof fn lemma_range(a: Self, b: Self)
        ensures
            Self::lowest() <= a.value() <= Self::highest(),
            Self::lowest() <= 0 <= Self::highest(),
            a.value() == b.value() ==> a == b,
    ;

    /// The additive identity.
    fn zero() -> (z: Self)
        ensures
            z.value() == 0,
    ;

    /// Strict comparison by value.
    fn less_than(&self, other: &Self) -> (lt: bool)
        ensures
            lt == (self.value() < other.value()),
    ;

    /// Sum of two weights whose sum is representable.
    fn plus(&self, other: &Self) -> (sum: Self)
        requires
            Self::lowest() <= self.value() + other.value() <= Self::highest(),
        ensures
            sum.value() == self.value() + other.value(),
    ;

    /// Sum of two weights, or `None` if the sum is not representable.
    fn checked_plus(&self, other: &Self) -> (sum: Option<Self>)
        ensures
            sum is Some <==> Self::lowest() <= self.value() + other.value() <= Self::highest(),
            sum is Some ==> sum->Some_0.value() == self.value() + other.value(),
    ;
}

impl Weight for i32 {
    open spec fn value(&self) -> int {
        *self as int
    }

    open spec fn lowest() -> int {
        i32::MIN as int
    }

    open spec fn highest() -> int {
        i32::MAX as int
    }

    proof fn lemma_range(a: Self, b: Self) {
    }

    fn zero() -> (z: Self) {
        0
    }

    fn less_than(&self, other: &Self) -> (lt: bool) {
        *self < *other
    }

    fn plus(&self, other: &Self) -> (sum: Self) {
        *self + *other
    }

    fn checked_plus(&self, other: &Self) -> (sum: Option<Self>) {
        let wide: i64 = *self as i64 + *other as i64;
        if wide < i32::MIN as i64 || wide > i32::MAX as i64 {
            None
        } else {
            Some(wide as i32)
        }
    }
}

impl Weight for i64 {
    open spec fn value(&self) -> int {
        *self as int
    }

    open spec fn lowest() -> int {
        i64::MIN as int
    }

    open spec fn highest() -> int {
        i64::MAX as int
    }

    proof fn lemma_range(a: Self, b: Self) {
    }

    fn zero() -> (z: Self) {
        0
    }

    fn less_than(&self, other: &Self) -> (lt: bool) {
        *self < *other
    }

    fn plus(&self, other: &Self) -> (sum: Self) {
        *self + *other
    }

    fn checked_plus(&self, other: &Self) -> (sum: Option<Self>) {
        let wide: i128 = *self as i128 + *other as i128;
        if wide < i64::MIN as i128 || wide > i64::MAX as i128 {
            None
        } else {
            Some(wide as i64)
        }
    }
}

} // verus!
