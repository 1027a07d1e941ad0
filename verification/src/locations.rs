//! Settlement classes by building count.

use vstd::prelude::*;

verus! {

/// Size class of a detected settlement, in declaration order.
#[derive(Debug, Clone, Copy, PartialEq, Eq, Structural)]
pub enum LocationClass {
    /// 2-4 buildings
    Farm,
    /// 5-12 buildings
    Hamlet,
    /// 13-40 buildings
    Village,
    /// 41-120 buildings
    Town,
    /// 120+ buildings
    City,
}

/// The class that a settlement of `buildings` buildings falls in.
pub open spec fn class_of(buildings: int) -> LocationClass {
    if buildings <= 4 {
        LocationClass::Farm
    } else if buildings <= 12 {
        LocationClass::Hamlet
    } else if buildings <= 40 {
        LocationClass::Village
    } else if buildings <= 120 {
        LocationClass::Town
    } else {
        LocationClass::City
    }
}

/// The wire index of a class: its position in declaration order.
pub open spec fn class_index(class: LocationClass) -> u8 {
    match class {
        LocationClass::Farm => 0,
        LocationClass::Hamlet => 1,
        LocationClass::Village => 2,
        LocationClass::Town => 3,
        LocationClass::City => 4,
    }
}

impl LocationClass {
    /// Classifies a settlement by its building count.
    pub fn classify(buildings: usize) -> (class: Self)
        ensures
            class == class_of(buildings as int),
    {
        if buildings <= 4 {
            LocationClass::Farm
        } else if buildings <= 12 {
            LocationClass::Hamlet
        } else if buildings <= 40 {
            LocationClass::Village
        } else if buildings <= 120 {
            LocationClass::Town
        } else {
            LocationClass::City
        }
    }

    /// Enumeration index used on the wire protocol (`locations:page`'s
    /// `classIndex`), in declaration order.
    pub fn index(self) -> (i: u8)
        ensures
            i == class_index(self),
    {
        match self {
            LocationClass::Farm => 0,
            LocationClass::Hamlet => 1,
            LocationClass::Village => 2,
            LocationClass::Town => 3,
            LocationClass::City => 4,
        }
    }
}

/// Classification is monotone: more buildings never give a smaller class.
pub proof fn lemma_classify_monotone(fewer: int, more: int)
    requires
        fewer <= more,
    ensures
        class_index(class_of(fewer)) <= class_index(class_of(more)),
{
}

/// The wire index tells classes apart and stays below five.
pub proof fn lemma_index_injective(a: LocationClass, b: LocationClass)
    ensures
        class_index(a) < 5,
        class_index(a) == class_index(b) <==> a == b,
{
}

} // verus!
