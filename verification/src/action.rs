use vstd::prelude::*;

verus! {

/// A choice available at a state: a small copyable value that can be
/// compared for equality. `eq_action` must agree with mathematical
/// equality on the type, which is what lets the tree deduplicate
/// children by the action that produced them.
pub trait Action: Sized + Copy {
    fn eq_action(&self, other: &Self) -> (r: bool)
        ensures
            r == (*self == *other),
    ;
}

impl Action for u8 {
    fn eq_action(&self, other: &Self) -> (r: bool)
        ensures
            r == (*self == *other),
    {
        *self == *other
    }
}

impl Action for u32 {
    fn eq_action(&self, other: &Self) -> (r: bool)
        ensures
            r == (*self == *other),
    {
        *self == *other
    }
}

impl Action for u64 {
    fn eq_action(&self, other: &Self) -> (r: bool)
        ensures
            r == (*self == *other),
    {
        *self == *other
    }
}

impl Action for usize {
    fn eq_action(&self, other: &Self) -> (r: bool)
        ensures
            r == (*self == *other),
    {
        *self == *other
    }
}

} // verus!
