//! Small closed enumerations and array-backed maps over them.
//!
//! The simulation's player set is a closed, statically enumerable value type.
//! `TPlainEnum` captures the conversions between such an enum and its numeric
//! representation, and `PlayerArr` (via `TEnumMapType`) is a total map from
//! enum values to some payload type.

use vstd::prelude::*;

verus! {

/// A closed enumeration with a fixed arity and a total numbering `0..arity`.
pub trait TPlainEnum: Sized + Copy {
    /// Arity, i.e. the smallest `usize` not representable by the enum.
    spec fn arity() -> usize;

    /// The numeric representation, always below `Self::arity()`.
    spec fn as_usize(self) -> usize;

    /// Executable arity.
    fn size() -> (n: usize)
        ensures
            n == Self::arity(),
            0 < n,
    ;

    /// Checks whether `u` is the numerical representation of a valid enum value.
    fn valid_usize(u: usize) -> (r: bool)
        ensures
            r <==> u < Self::arity(),
    ;

    /// Converts `u` to the associated enum value.
    fn from_usize(u: usize) -> (r: Self)
        requires
            u < Self::arity(),
        ensures
            r.as_usize() == u,
    ;

    /// Converts `u` to the associated enum value if `u` is valid for the enum.
    fn checked_from_usize(u: usize) -> (r: Option<Self>)
        ensures
            match r {
                Some(v) => u < Self::arity() && v.as_usize() == u,
                None => u >= Self::arity(),
            },
    ;

    /// Converts `u` to the associated enum value, wrapping it first.
    fn wrapped_from_usize(u: usize) -> (r: Self)
        ensures
            r.as_usize() == u % Self::arity(),
    ;

    /// The difference between two enum values, wrapping around if necessary.
    fn wrapped_difference(self, e_other: Self) -> (r: usize)
        requires
            self.as_usize() < Self::arity(),
            e_other.as_usize() < Self::arity(),
        ensures
            r == (self.as_usize() + Self::arity() - e_other.as_usize()) % (Self::arity() as int),
    ;

    /// Converts the enum to its numerical representation.
    fn to_usize(self) -> (r: usize)
        ensures
            r == self.as_usize(),
    ;

    /// All values of the enum, in numbering order.
    fn values() -> (r: Vec<Self>)
        ensures
            r@.len() == Self::arity(),
            forall|i: int| 0 <= i < r@.len() ==> (#[trigger] r@[i]).as_usize() == i,
    ;

    /// Adds a number to the enum, wrapping.
    fn wrapping_add(self, n_offset: usize) -> (r: Self)
        requires
            self.as_usize() < Self::arity(),
            n_offset <= 1000000,
        ensures
            r.as_usize() == (self.as_usize() + n_offset) % (Self::arity() as int),
    ;
}

/// Trait used to associate an enum with its array-backed map type.
pub trait TEnumMapType<T>: TPlainEnum {
    type MapType;
}

} // verus!
