//! A value in its binary form, borrowed from the caller.

use vstd::prelude::*;

verus! {

/// The bytes of one value.
#[derive(Debug, Clone, Copy)]
pub struct RawJsonb<'a>(pub &'a [u8]);

impl<'a> View for RawJsonb<'a> {
    type V = Seq<u8>;

    open spec fn view(&self) -> Seq<u8> {
        self.0@
    }
}

impl<'a> RawJsonb<'a> {
    /// The value that `data` holds.
    pub fn new(data: &'a [u8]) -> (r: RawJsonb<'a>)
        ensures
            r@ == data@,
    {
        RawJsonb(data)
    }

    /// The number of bytes of the value.
    pub fn len(&self) -> (r: usize)
        ensures
            r == self@.len(),
    {
        self.0.len()
    }
}

} // verus!
