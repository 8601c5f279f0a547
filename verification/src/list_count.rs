//! Wrappers that choose the count type of a list when it is written.

use vstd::prelude::*;
use crate::scalar::ScalarType;

verus! {

/// A list written with a `uchar` count (at most 255 elements).
#[derive(Debug, Clone, PartialEq, Eq)]
pub struct ListCountU8<T>(pub T);

/// A list written with a `ushort` count (at most 65535 elements).
#[derive(Debug)]
pub struct ListCountU16<T>(pub T);

/// A list written with a `uint` count (at most 4294967295 elements).
#[derive(Debug)]
pub struct ListCountU32<T>(pub T);

/// The count type that a list wrapper writes.
pub trait ListCountType {
    fn count_scalar_type() -> ScalarType;
}

impl<T> ListCountType for ListCountU8<T> {
    fn count_scalar_type() -> (r: ScalarType)
        ensures
            r == ScalarType::U8,
    {
        ScalarType::U8
    }
}

impl<T> ListCountType for ListCountU16<T> {
    fn count_scalar_type() -> (r: ScalarType)
        ensures
            r == ScalarType::U16,
    {
        ScalarType::U16
    }
}

impl<T> ListCountType for ListCountU32<T> {
    fn count_scalar_type() -> (r: ScalarType)
        ensures
            r == ScalarType::U32,
    {
        ScalarType::U32
    }
}

} // verus!
