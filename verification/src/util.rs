use vstd::prelude::*;

verus! {

/// An owned heap cell that holds the child of a recursive pattern node.
#[derive(Debug, Clone, PartialEq, Eq)]
pub struct Boxed<T>(pub Box<T>);

impl<T> Boxed<T> {
    pub fn new(value: T) -> (r: Self)
        ensures
            *r.0 == value,
    {
        Self(Box::new(value))
    }
}

} // verus!
