//! A single integer value that is overwritten in place.

use vstd::prelude::*;

verus! {

/// Holds one integer.
#[derive(Debug)]
pub struct MyStruct {
    pub value: i32,
}

impl MyStruct {
    /// Replaces the held value by `v`.
    pub fn set_value(&mut self, v: i32)
        ensures
            final(self).value == v,
    {
        self.value = v;
    }
}

} // verus!
