//! The byte format: fixed-width numbers, variable-length numbers and bounded strings.
pub mod decode;
pub mod encode;
pub mod form;
pub mod num;
pub mod round_trip;

use vstd::prelude::*;

verus! {

/// A number that is written in as few bytes as its magnitude needs, seven bits to a byte.
#[derive(Debug, PartialEq, Eq)]
pub struct VarInt<T>(pub T);

impl<T> View for VarInt<T> {
    type V = VarInt<T>;

    open spec fn view(&self) -> VarInt<T> {
        *self
    }
}

/// A string whose UTF-8 form takes at most `MAX_LEN` bytes on the wire.
#[derive(Debug)]
pub struct StrWithMaxLen<'a, const MAX_LEN: usize>(pub &'a str);

impl<'a, const MAX_LEN: usize> View for StrWithMaxLen<'a, MAX_LEN> {
    type V = Seq<char>;

    open spec fn view(&self) -> Seq<char> {
        self.0@
    }
}

impl<'a, const MAX_LEN: usize> StrWithMaxLen<'a, MAX_LEN> {
    pub fn new(str: &'a str) -> (s: Self)
        ensures
            s.0 == str,
    {
        Self(str)
    }
}

} // verus!
