//! The interfaces of an assembler and a disassembler.

use vstd::prelude::*;

verus! {

/// Turns source text, given piece by piece, into machine code.
///
/// An implementation for the raw source language drives a [`crate::Raw`]
/// with the parser of its instruction set.
pub trait Assemble {
    type Error;

    fn assemble<'a, I>(source: I) -> Result<Vec<u8>, Self::Error> where
        I: Iterator<Item = &'a str> + Clone;
}

/// Turns machine code, given byte by byte, into source text.
pub trait Disassemble {
    type Error;

    fn disassemble<'a, I>(code: I) -> Result<String, Self::Error> where
        I: Iterator<Item = &'a u8> + Clone;
}

} // verus!
