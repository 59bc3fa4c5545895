//! A small serialization interface: a type states its byte image as a
//! specification and appends exactly that image.

use vstd::prelude::*;

use crate::bytes::{be16, be32, write_u16, write_u32, write_u8};

verus! {

/// A value with a fixed byte image on the wire.
pub trait Serialize {
    /// The byte image of the value.
    spec fn wire(&self) -> Seq<u8>;

    /// The number of bytes the image occupies.
    fn size(&self) -> (r: usize)
        ensures
            r == self.wire().len(),
    ;

    /// Appends the image.
    fn serialize(&self, output: &mut Vec<u8>)
        ensures
            final(output)@ =~= old(output)@ + self.wire(),
    ;
}

impl Serialize for u8 {
    open spec fn wire(&self) -> Seq<u8> {
        seq![*self]
    }

    fn size(&self) -> (r: usize) {
        1
    }

    fn serialize(&self, output: &mut Vec<u8>) {
        write_u8(output, *self);
    }
}

impl Serialize for u16 {
    open spec fn wire(&self) -> Seq<u8> {
        be16(*self)
    }

    fn size(&self) -> (r: usize) {
        2
    }

    fn serialize(&self, output: &mut Vec<u8>) {
        write_u16(output, *self);
    }
}

impl Serialize for u32 {
    open spec fn wire(&self) -> Seq<u8> {
        be32(*self)
    }

    fn size(&self) -> (r: usize) {
        4
    }

    fn serialize(&self, output: &mut Vec<u8>) {
        write_u32(output, *self);
    }
}

} // verus!
