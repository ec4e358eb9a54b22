use vstd::prelude::*;

verus! {

/// A failure while decoding the container. Every error aborts the whole
/// decode: the format offers no way to resynchronise after a bad field.
#[derive(Clone, Copy, Debug, PartialEq, Eq, Structural)]
pub enum StoreError {
    /// A magic number or page signature did not match its expected constant.
    InvalidFormat,
    /// A page's type tag lies outside the known enumeration.
    UnknownBlockType,
    /// A chained page carries a different type than the chain's root promised.
    TypeMismatch,
    /// A record index occurred twice, within one page or across a chain.
    DuplicateRecord,
    /// The input ended in the middle of a field.
    UnexpectedEof,
    /// A text field was not well-formed UTF-8.
    InvalidText,
    /// A chain pointer led back to a page that was already visited.
    CorruptChain,
}

} // verus!
