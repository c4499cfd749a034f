//! The three-way rule, and values that are held once per side.

use vstd::prelude::*;

use crate::resolve::Side;
use crate::semantic::ValueSource;

verus! {

/// A value held once per side.
#[derive(Clone, Copy)]
pub struct Sides<T> {
    pub base: T,
    pub ours: T,
    pub theirs: T,
}

impl<T> Sides<T> {
    /// The value of a side.
    pub open spec fn of(self, side: Side) -> T {
        match side {
            Side::Base => self.base,
            Side::Ours => self.ours,
            Side::Theirs => self.theirs,
        }
    }

    /// Selects the value of a side.
    pub fn pick(self, side: Side) -> (res: T)
        ensures
            res == self.of(side),
    {
        match side {
            Side::Base => self.base,
            Side::Ours => self.ours,
            Side::Theirs => self.theirs,
        }
    }
}

/// The source that a side is.
pub open spec fn source_of_side(side: Side) -> ValueSource {
    match side {
        Side::Base => ValueSource::Base,
        Side::Ours => ValueSource::Ours,
        Side::Theirs => ValueSource::Theirs,
    }
}

pub fn side_source(side: Side) -> (res: ValueSource)
    ensures
        res == source_of_side(side),
{
    match side {
        Side::Base => ValueSource::Base,
        Side::Ours => ValueSource::Ours,
        Side::Theirs => ValueSource::Theirs,
    }
}

/// Which side a field is taken from, given which of the three are the same: the
/// base if neither side changed, the side that changed if one did, ours if both
/// changed alike, and none if they changed differently.
pub open spec fn three_way(
    ours_is_base: bool,
    theirs_is_base: bool,
    ours_is_theirs: bool,
) -> Option<Side> {
    if ours_is_base && theirs_is_base {
        Some(Side::Base)
    } else if ours_is_base {
        Some(Side::Theirs)
    } else if theirs_is_base || ours_is_theirs {
        Some(Side::Ours)
    } else {
        None
    }
}

/// Applies the three-way rule.
pub fn three_way_side(ours_is_base: bool, theirs_is_base: bool, ours_is_theirs: bool) -> (res:
    Option<Side>)
    ensures
        res == three_way(ours_is_base, theirs_is_base, ours_is_theirs),
{
    if ours_is_base && theirs_is_base {
        Some(Side::Base)
    } else if ours_is_base {
        Some(Side::Theirs)
    } else if theirs_is_base || ours_is_theirs {
        Some(Side::Ours)
    } else {
        None
    }
}

/// The three-way rule on values that are compared as such.
pub open spec fn three_way_of<T>(s: Sides<T>) -> Option<Side> {
    three_way(s.ours == s.base, s.theirs == s.base, s.ours == s.theirs)
}

/// If both sides are the base, the result is the base.
pub proof fn law_unchanged_keeps_base<T>(s: Sides<T>)
    requires
        s.ours == s.base,
        s.theirs == s.base,
    ensures
        three_way_of(s) == Some(Side::Base),
{
}

/// If only one side changed, the result is what it changed to.
pub proof fn law_one_sided_change_wins<T>(s: Sides<T>)
    ensures
        s.theirs == s.base ==> three_way_of(s) is Some && s.of(three_way_of(s)->0) == s.ours,
        s.ours == s.base ==> three_way_of(s) is Some && s.of(three_way_of(s)->0) == s.theirs,
{
}

/// If both sides changed alike, the result is what they changed to.
pub proof fn law_same_change_wins<T>(s: Sides<T>)
    requires
        s.ours == s.theirs,
    ensures
        three_way_of(s) is Some,
        s.of(three_way_of(s)->0) == s.ours,
{
}

/// If both sides changed differently, there is no result.
pub proof fn law_different_changes_conflict<T>(s: Sides<T>)
    requires
        s.ours != s.base,
        s.theirs != s.base,
        s.ours != s.theirs,
    ensures
        three_way_of(s) is None,
{
}

/// Exchanging the sides exchanges nothing in the result.
pub proof fn law_three_way_is_symmetric<T>(s: Sides<T>)
    ensures
        ({
            let swapped = Sides { base: s.base, ours: s.theirs, theirs: s.ours };
            &&& three_way_of(swapped) is Some <==> three_way_of(s) is Some
            &&& three_way_of(s) is Some ==> swapped.of(three_way_of(swapped)->0) == s.of(
                three_way_of(s)->0,
            )
        }),
{
}

} // verus!
