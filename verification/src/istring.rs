//! Strings of bytes, typed by the size of their units.
use vstd::prelude::*;

verus! {

/// The size in bytes of the units of a string.
pub trait StringSize {
    /// The size in bytes of one unit.
    fn size() -> (r: usize)
        ensures
            r >= 1,
    ;
}

/// Strings of single bytes.
pub struct StringU8;

impl StringSize for StringU8 {
    fn size() -> (r: usize) {
        1
    }
}

/// A string of bytes whose units are `T::size()` bytes long.
pub struct IString<T: StringSize> {
    pub bytes: Vec<u8>,
    pub phantom: core::marker::PhantomData<T>,
}

impl<T: StringSize> IString<T> {
    /// An empty string.
    pub fn new() -> (r: Self)
        ensures
            r.bytes@ == Seq::<u8>::empty(),
    {
        IString { bytes: Vec::new(), phantom: core::marker::PhantomData }
    }

    /// The bytes of the string.
    pub fn as_bytes(&self) -> (r: &[u8])
        ensures
            r@ == self.bytes@,
    {
        self.bytes.as_slice()
    }
}

} // verus!
